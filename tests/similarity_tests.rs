use social_graph::{categorize_overlap, from_edges, jaccard_counts, AdjacencyList, SimilarityLevel};

#[test]
fn test_jaccard_similarity() {
    let mut graph = AdjacencyList::new();
    graph.insert(1, vec![3, 4]);
    graph.insert(2, vec![3, 4]);
    graph.insert(3, vec![1, 2]);
    graph.insert(4, vec![1, 2]);

    let (shared, total) = jaccard_counts(&graph, 1, 2);
    let similarity = shared as f64 / total as f64;
    assert!((similarity - 1.0).abs() < 1e-5);
}

#[test]
fn categorization_cutoffs() {
    assert_eq!(categorize_overlap(8, 10), SimilarityLevel::High);
    assert_eq!(categorize_overlap(5, 10), SimilarityLevel::Medium);
    assert_eq!(categorize_overlap(2, 10), SimilarityLevel::Low);
    assert_eq!(categorize_overlap(7, 10), SimilarityLevel::Medium);
    assert_eq!(categorize_overlap(3, 10), SimilarityLevel::Low);
    assert_eq!(categorize_overlap(0, 0), SimilarityLevel::Low);
    assert_eq!(categorize_overlap(1, 1), SimilarityLevel::High);
}

#[test]
fn worked_example_similarity() {
    let graph = from_edges(&vec![(1, 2), (1, 3), (2, 4)]);
    let (shared, total) = jaccard_counts(&graph, 1, 2);
    assert_eq!((shared, total), (0, 4));
    assert_eq!(categorize_overlap(shared, total), SimilarityLevel::Low);
}

#[test]
fn self_disjoint_and_symmetric_overlap() {
    let graph = from_edges(&vec![(1, 2), (1, 3), (1, 3), (4, 5), (2, 5)]);
    assert_eq!(jaccard_counts(&graph, 1, 1), (2, 2));
    assert_eq!(jaccard_counts(&graph, 1, 4), (0, 3));
    assert_eq!(jaccard_counts(&graph, 1, 5), jaccard_counts(&graph, 5, 1));
    assert_eq!(jaccard_counts(&graph, 1, 5), (1, 3));
    assert_eq!(jaccard_counts(&graph, 7, 8), (0, 0));
}
