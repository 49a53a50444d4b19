use social_graph::{assign_communities, community_sizes, large_communities, top_degree_nodes, from_edges};

#[test]
fn communities_by_line_with_last_write_winning() {
    let lines = vec![vec![1, 2], vec![3, 4], vec![2, 5]];
    let communities = assign_communities(&lines);
    assert_eq!(communities.len(), 5);
    assert_eq!(communities[&1], 0);
    assert_eq!(communities[&2], 2);
    assert_eq!(communities[&3], 1);
    assert_eq!(communities[&4], 1);
    assert_eq!(communities[&5], 2);
}

#[test]
fn loaded_communities_example() {
    let lines = vec![vec![1, 2], vec![3, 4]];
    let communities = assign_communities(&lines);
    assert_eq!(communities.len(), 4);
    assert_eq!(communities[&1], 0);
    assert_eq!(communities[&2], 0);
    assert_eq!(communities[&3], 1);
    assert_eq!(communities[&4], 1);
}

#[test]
fn sizes_count_each_member_once() {
    let lines = vec![vec![1, 2, 3, 1], vec![4, 5, 6, 7], vec![3, 8], vec![]];
    let sizes = community_sizes(&lines);
    assert_eq!(sizes, vec![2, 4, 2, 0]);
    assert_eq!(sizes.iter().sum::<u64>(), 8);
}

#[test]
fn ranking_keeps_groups_of_three_or_more() {
    let sizes = vec![3, 2, 5, 3, 0, 7, 1];
    let ranked = large_communities(&sizes);
    assert_eq!(ranked, vec![(5, 7), (2, 5), (0, 3), (3, 3)]);
    assert!(ranked.iter().all(|&(_, s)| s >= 3));
    let kept: u64 = ranked.iter().map(|&(_, s)| s).sum();
    let dropped: u64 = sizes.iter().filter(|&&s| s < 3).sum();
    assert_eq!(kept + dropped, sizes.iter().sum::<u64>());
    assert_eq!(ranked.first(), Some(&(5, 7)));
}

#[test]
fn ranking_of_nothing_is_empty() {
    assert!(large_communities(&vec![]).is_empty());
    assert!(large_communities(&vec![1, 2, 0]).is_empty());
}

#[test]
fn top_degree_sources_break_ties_by_id() {
    let graph = from_edges(&vec![(1, 2), (2, 3), (2, 4), (5, 3), (4, 6), (6, 7)]);
    // degrees: 1:1, 2:3, 3:2, 4:2, 5:1, 6:2, 7:1
    assert_eq!(top_degree_nodes(&graph, 3), vec![2, 3, 4]);
    assert_eq!(top_degree_nodes(&graph, 0), Vec::<u32>::new());
    assert_eq!(top_degree_nodes(&graph, 100), vec![2, 3, 4, 6, 1, 5, 7]);
}
