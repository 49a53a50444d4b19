//! Structural metrics over an undirected graph given as an edge list:
//! degrees, breadth-first distances, neighbourhood overlap, shortest-path
//! counting for betweenness, and community size summaries.
pub mod bfs;
pub mod centrality;
pub mod communities;
pub mod edge_list;
pub mod graph;
pub mod similarity;

pub use bfs::{bfs_shortest_path, bfs_visit};
pub use centrality::{shortest_path_counts, top_degree_nodes, ShortestPaths};
pub use communities::{assign_communities, community_sizes, large_communities, MIN_COMMUNITY_SIZE};
pub use edge_list::{parse_edge_line, parse_member_line, parse_u32_token, split_tokens};
pub use graph::{
    calculate_degrees, count_edges, degree_distance_2, degree_range, find_highest_degree_node, from_edges,
    AdjacencyList,
};
pub use similarity::{categorize_overlap, jaccard_counts, SimilarityLevel};
