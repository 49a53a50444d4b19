use social_graph::{
    bfs_shortest_path, calculate_degrees, count_edges, degree_distance_2,
    find_highest_degree_node, from_edges, AdjacencyList,
};

#[test]
fn test_count_edges() {
    let mut graph = AdjacencyList::new();
    graph.insert(1, vec![2, 3]);
    graph.insert(2, vec![1]);
    graph.insert(3, vec![1]);
    assert_eq!(count_edges(&graph), 2);
}

#[test]
fn test_calculate_degrees() {
    let mut graph = AdjacencyList::new();
    graph.insert(1, vec![2, 3]);
    graph.insert(2, vec![1]);
    graph.insert(3, vec![1]);

    let degrees = calculate_degrees(&graph);
    assert_eq!(degrees[&1], 2);
    assert_eq!(degrees[&2], 1);
    assert_eq!(degrees[&3], 1);
}

#[test]
fn test_find_highest_degree_node() {
    let mut graph = AdjacencyList::new();
    graph.insert(1, vec![2, 3]);
    graph.insert(2, vec![1]);
    graph.insert(3, vec![1]);

    let highest = find_highest_degree_node(&graph).unwrap();
    assert_eq!(highest, (1, 2));
}

#[test]
fn test_bfs_shortest_path() {
    let mut graph = AdjacencyList::new();
    graph.insert(1, vec![2, 3]);
    graph.insert(2, vec![1, 4]);
    graph.insert(3, vec![1]);
    graph.insert(4, vec![2]);

    let distances = bfs_shortest_path(&graph, 1);
    assert_eq!(distances[&1], 0);
    assert_eq!(distances[&2], 1);
    assert_eq!(distances[&3], 1);
    assert_eq!(distances[&4], 2);
}

#[test]
fn test_degree_distance_2() {
    let mut graph = AdjacencyList::new();
    graph.insert(1, vec![2, 4]);
    graph.insert(2, vec![1, 3]);
    graph.insert(3, vec![2, 4]);
    graph.insert(4, vec![1, 3]);

    assert_eq!(degree_distance_2(&graph, 1), 1);
    assert_eq!(degree_distance_2(&graph, 2), 1);
}

#[test]
fn worked_example_adjacency_and_edge_count() {
    let graph = from_edges(&vec![(1, 2), (1, 3), (2, 4)]);
    assert_eq!(graph.len(), 4);
    assert_eq!(graph.get(1).unwrap(), &vec![2, 3]);
    assert_eq!(graph.get(2).unwrap(), &vec![1, 4]);
    assert_eq!(graph.get(3).unwrap(), &vec![1]);
    assert_eq!(graph.get(4).unwrap(), &vec![2]);
    assert_eq!(count_edges(&graph), 3);
    let degrees = calculate_degrees(&graph);
    assert_eq!(degrees[&1], 2);
    assert_eq!(degrees[&2], 2);
    assert_eq!(degrees[&3], 1);
    assert_eq!(degrees[&4], 1);
    let distances = bfs_shortest_path(&graph, 1);
    assert_eq!(distances.len(), 4);
    assert_eq!(distances[&1], 0);
    assert_eq!(distances[&2], 1);
    assert_eq!(distances[&3], 1);
    assert_eq!(distances[&4], 2);
}

#[test]
fn add_edge_records_both_directions() {
    let mut graph = AdjacencyList::new();
    graph.add_edge(5, 7);
    graph.add_edge(7, 7);
    graph.add_edge(5, 7);
    assert_eq!(graph.get(5).unwrap(), &vec![7, 7]);
    assert_eq!(graph.get(7).unwrap(), &vec![5, 7, 7, 5]);
    assert_eq!(count_edges(&graph), 3);
    assert_eq!(graph.node_ids(), vec![5, 7]);
}

#[test]
fn symmetry_holds_after_loading() {
    let edges = vec![(1, 2), (2, 3), (3, 1), (4, 4), (2, 3), (9, 1)];
    let graph = from_edges(&edges);
    for u in graph.node_ids() {
        for &v in graph.get(u).unwrap() {
            assert!(graph.get(v).unwrap().contains(&u));
        }
    }
    assert_eq!(count_edges(&graph), edges.len());
}

#[test]
fn empty_graph_queries() {
    let graph = AdjacencyList::new();
    assert_eq!(graph.len(), 0);
    assert_eq!(count_edges(&graph), 0);
    assert!(calculate_degrees(&graph).is_empty());
    assert_eq!(find_highest_degree_node(&graph), None);
    assert_eq!(degree_distance_2(&graph, 3), 0);
    let distances = bfs_shortest_path(&graph, 3);
    assert_eq!(distances.len(), 1);
    assert_eq!(distances[&3], 0);
}

#[test]
fn highest_degree_tie_goes_to_smallest_id() {
    let graph = from_edges(&vec![(8, 3), (3, 8), (5, 8), (3, 5)]);
    assert_eq!(find_highest_degree_node(&graph), Some((3, 3)));
    let graph = from_edges(&vec![(9, 2), (4, 6)]);
    assert_eq!(find_highest_degree_node(&graph), Some((2, 1)));
}

#[test]
fn bfs_leaves_out_unreachable_and_is_symmetric() {
    let graph = from_edges(&vec![(1, 2), (2, 3), (3, 4), (1, 4), (10, 11)]);
    let from1 = bfs_shortest_path(&graph, 1);
    assert_eq!(from1.len(), 4);
    assert_eq!(from1[&3], 2);
    assert!(!from1.contains_key(&10));
    let from3 = bfs_shortest_path(&graph, 3);
    assert_eq!(from3[&1], from1[&3]);
    assert_eq!(from3[&4], 1);
}

#[test]
fn distance_two_excludes_self_and_direct_neighbours() {
    let graph = from_edges(&vec![(1, 2), (2, 3), (1, 3), (3, 4), (2, 5), (5, 1)]);
    // from 1: neighbours 2, 3, 5; two hops reach 1, 3, 5, 4, 2: only 4 counts
    assert_eq!(degree_distance_2(&graph, 1), 1);
    assert_eq!(degree_distance_2(&graph, 99), 0);
}

#[test]
fn insert_replaces_a_neighbour_list() {
    let mut graph = AdjacencyList::new();
    graph.insert(1, vec![2, 3]);
    graph.insert(1, vec![4]);
    assert_eq!(graph.get(1).unwrap(), &vec![4]);
    assert_eq!(graph.len(), 1);
    assert_eq!(graph.get(2), None);
}
