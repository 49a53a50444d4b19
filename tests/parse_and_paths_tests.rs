use social_graph::{
    bfs_visit, degree_range, from_edges, parse_edge_line, parse_member_line, parse_u32_token,
    shortest_path_counts, split_tokens, AdjacencyList,
};

#[test]
fn edge_lines_are_parsed_tolerantly() {
    assert_eq!(parse_edge_line(b"1 2"), Some((1, 2)));
    assert_eq!(parse_edge_line(b"  30\t4000  "), Some((30, 4000)));
    assert_eq!(parse_edge_line(b"# FromNodeId ToNodeId"), None);
    assert_eq!(parse_edge_line(b"1 2 3"), None);
    assert_eq!(parse_edge_line(b"7"), None);
    assert_eq!(parse_edge_line(b""), None);
    assert_eq!(parse_edge_line(b"1 x"), None);
    assert_eq!(parse_edge_line(b"-1 2"), None);
    assert_eq!(parse_edge_line(b"4294967295 0"), Some((u32::MAX, 0)));
    assert_eq!(parse_edge_line(b"4294967296 0"), None);
    assert_eq!(parse_edge_line(b"+5 6\r"), Some((5, 6)));
}

#[test]
fn tokens_and_numbers() {
    assert_eq!(split_tokens(b" a  bc\td "), vec![b"a".to_vec(), b"bc".to_vec(), b"d".to_vec()]);
    assert!(split_tokens(b"   ").is_empty());
    assert_eq!(parse_u32_token(b"0042"), Some(42));
    assert_eq!(parse_u32_token(b"+"), None);
    assert_eq!(parse_u32_token(b""), None);
    assert_eq!(parse_u32_token(b"12a"), None);
    assert_eq!(parse_u32_token(b"99999999999"), None);
}

#[test]
fn member_lines() {
    assert_eq!(parse_member_line(b"1 2\t3"), Some(vec![1, 2, 3]));
    assert_eq!(parse_member_line(b""), Some(vec![]));
    assert_eq!(parse_member_line(b"1 two 3"), None);
}

#[test]
fn degree_range_guards_empty_graph() {
    assert_eq!(degree_range(&AdjacencyList::new()), None);
    let graph = from_edges(&vec![(1, 2), (1, 3), (2, 4)]);
    assert_eq!(degree_range(&graph), Some((1, 2)));
}

#[test]
fn path_graph_counts_and_order() {
    let graph = from_edges(&vec![(1, 2), (2, 3)]);
    let paths = shortest_path_counts(&graph, 1);
    assert_eq!(paths.order, vec![1, 2, 3]);
    assert_eq!(paths.dist[&3], 2);
    assert_eq!(paths.preds[&1], Vec::<u32>::new());
    assert_eq!(paths.preds[&2], vec![1]);
    assert_eq!(paths.preds[&3], vec![2]);
    assert_eq!(paths.sigma[&1], 1);
    assert_eq!(paths.sigma[&3], 1);
}

#[test]
fn diamond_has_two_shortest_paths() {
    let graph = from_edges(&vec![(1, 2), (1, 3), (2, 4), (3, 4), (4, 5)]);
    let paths = shortest_path_counts(&graph, 1);
    assert_eq!(paths.preds[&4], vec![2, 3]);
    assert_eq!(paths.sigma[&4], 2);
    assert_eq!(paths.sigma[&5], 2);
    let (dist, order) = bfs_visit(&graph, 1);
    assert_eq!(order.len(), 5);
    for w in order.windows(2) {
        assert!(dist[&w[0]] <= dist[&w[1]]);
    }
}

#[test]
fn isolated_source_reaches_only_itself() {
    let graph = from_edges(&vec![(1, 2)]);
    let paths = shortest_path_counts(&graph, 9);
    assert_eq!(paths.order, vec![9]);
    assert_eq!(paths.sigma[&9], 1);
}
