//! Neighbourhood overlap between two nodes and its three-level grading.
use std::collections::HashSet;
use vstd::prelude::*;
use vstd::set_lib::{lemma_len_subset, lemma_set_intersect_union_lens};
use crate::graph::{lemma_u32_set_bound, neighbors, AdjacencyList};

verus! {

broadcast use vstd::std_specs::hash::group_hash_axioms;

/// Distinct neighbours that `u` and `v` have in common.
pub open spec fn shared_neighbors(g: Map<u32, Seq<u32>>, u: u32, v: u32) -> Set<u32> {
    neighbors(g, u).to_set().intersect(neighbors(g, v).to_set())
}

/// Distinct neighbours of `u` or of `v`.
pub open spec fn all_neighbors(g: Map<u32, Seq<u32>>, u: u32, v: u32) -> Set<u32> {
    neighbors(g, u).to_set() + neighbors(g, v).to_set()
}

/// Grade of a similarity score: above 0.7 is high, above 0.3 (up to 0.7) is
/// medium, the rest is low.
#[derive(Debug, Clone, Copy, PartialEq, Eq, Structural)]
pub enum SimilarityLevel {
    High,
    Medium,
    Low,
}

/// The grade of the score `shared / total`, compared exactly; an empty union
/// scores 0.
pub open spec fn level_of(shared: int, total: int) -> SimilarityLevel {
    if 10 * shared > 7 * total {
        SimilarityLevel::High
    } else if 10 * shared > 3 * total {
        SimilarityLevel::Medium
    } else {
        SimilarityLevel::Low
    }
}

/// Grades the score `shared / total` (0 when `total` is 0) by the exact
/// cutoffs: strictly above 7/10 is high, strictly above 3/10 is medium.
pub fn categorize_overlap(shared: u64, total: u64) -> (r: SimilarityLevel)
    requires
        shared <= total,
    ensures
        r == level_of(shared as int, total as int),
{
    let s = shared as u128;
    let t = total as u128;
    if 10 * s > 7 * t {
        SimilarityLevel::High
    } else if 10 * s > 3 * t {
        SimilarityLevel::Medium
    } else {
        SimilarityLevel::Low
    }
}

/// The distinct values of `list`.
fn distinct_values(list: &Vec<u32>) -> (r: HashSet<u32>)
    ensures
        r@ == list@.to_set(),
{
    let mut r: HashSet<u32> = HashSet::new();
    let mut i: usize = 0;
    while i < list.len()
        invariant
            i <= list.len(),
            r@ == list@.subrange(0, i as int).to_set(),
        decreases list.len() - i,
    {
        let ghost before = list@.subrange(0, i as int);
        r.insert(list[i]);
        proof {
            let after = list@.subrange(0, i + 1);
            assert(after.to_set() =~= before.to_set().insert(list@[i as int])) by {
                assert forall|x: u32| after.contains(x) <==> before.contains(x) || x == list@[i as int] by {
                    if after.contains(x) && x != list@[i as int] {
                        let j = choose|j: int| 0 <= j < after.len() && after[j] == x;
                        assert(before[j] == x);
                    }
                    if before.contains(x) {
                        let j = choose|j: int| 0 <= j < before.len() && before[j] == x;
                        assert(after[j] == x);
                    }
                    if x == list@[i as int] {
                        assert(after[i as int] == x);
                    }
                }
            }
        }
        i = i + 1;
    }
    proof {
        assert(list@.subrange(0, i as int) =~= list@);
    }
    r
}

/// Sizes of the intersection and of the union of the distinct neighbour
/// sets of `u` and `v`; an unknown node has no neighbours. Their ratio is
/// the Jaccard similarity (0 when the union is empty).
pub fn jaccard_counts(graph: &AdjacencyList, u: u32, v: u32) -> (r: (u64, u64))
    requires
        graph.wf(),
    ensures
        r.0 == shared_neighbors(graph@, u, v).len(),
        r.1 == all_neighbors(graph@, u, v).len(),
        r.0 <= r.1,
{
    let empty: Vec<u32> = Vec::new();
    let a = match graph.get(u) {
        Some(l) => l,
        None => &empty,
    };
    let b = match graph.get(v) {
        Some(l) => l,
        None => &empty,
    };
    let first = distinct_values(a);
    let mut seen: HashSet<u32> = HashSet::new();
    let mut shared: u64 = 0;
    let mut j: usize = 0;
    proof {
        assert(b@.subrange(0, 0).to_set() =~= Set::empty());
        assert(seen@.intersect(first@) =~= Set::empty());
    }
    while j < b.len()
        invariant
            j <= b.len(),
            seen@ == b@.subrange(0, j as int).to_set(),
            seen@.finite(),
            first@.finite(),
            shared == seen@.intersect(first@).len(),
            seen@.len() <= j,
        decreases b.len() - j,
    {
        let y = b[j];
        let ghost before = b@.subrange(0, j as int);
        let ghost s0 = seen@;
        if !seen.contains(&y) {
            if first.contains(&y) {
                proof {
                    lemma_len_subset(s0.intersect(first@), s0);
                    assert(s0.insert(y).intersect(first@) =~= s0.intersect(first@).insert(y));
                }
                shared = shared + 1;
            } else {
                proof {
                    assert(s0.insert(y).intersect(first@) =~= s0.intersect(first@));
                }
            }
            seen.insert(y);
        }
        proof {
            let after = b@.subrange(0, j + 1);
            assert(after.to_set() =~= before.to_set().insert(y)) by {
                assert forall|x: u32| after.contains(x) <==> before.contains(x) || x == y by {
                    if after.contains(x) && x != y {
                        let k = choose|k: int| 0 <= k < after.len() && after[k] == x;
                        assert(before[k] == x);
                    }
                    if before.contains(x) {
                        let k = choose|k: int| 0 <= k < before.len() && before[k] == x;
                        assert(after[k] == x);
                    }
                    if x == y {
                        assert(after[j as int] == x);
                    }
                }
            }
        }
        j = j + 1;
    }
    proof {
        assert(b@.subrange(0, j as int) =~= b@);
        assert(a@ == neighbors(graph@, u));
        assert(b@ == neighbors(graph@, v));
        assert(seen@.intersect(first@) =~= shared_neighbors(graph@, u, v));
        lemma_set_intersect_union_lens(first@, seen@);
        lemma_len_subset(first@.intersect(seen@), seen@);
        lemma_len_subset(first@, first@ + seen@);
        lemma_len_subset(seen@, first@ + seen@);
        lemma_u32_set_bound(first@);
        lemma_u32_set_bound(seen@);
        assert(first@ + seen@ == all_neighbors(graph@, u, v));
        assert(first@.intersect(seen@) =~= shared_neighbors(graph@, u, v));
    }
    let total = first.len() as u64 + (seen.len() as u64 - shared);
    (shared, total)
}

/// A node with at least one neighbour overlaps itself completely: the shared
/// and total counts are equal and positive, so its score is 1 and graded high.
pub proof fn lemma_overlap_self(g: Map<u32, Seq<u32>>, u: u32)
    requires
        neighbors(g, u).len() >= 1,
    ensures
        shared_neighbors(g, u, u) == all_neighbors(g, u, u),
        shared_neighbors(g, u, u).len() >= 1,
        level_of(shared_neighbors(g, u, u).len() as int, all_neighbors(g, u, u).len() as int)
            == SimilarityLevel::High,
{
    let a = neighbors(g, u).to_set();
    assert(a.intersect(a) =~= a);
    assert(a + a =~= a);
    vstd::seq_lib::seq_to_set_is_finite(neighbors(g, u));
    assert(a.contains(neighbors(g, u)[0]));
    vstd::set::axiom_set_remove_len(a, neighbors(g, u)[0]);
}

/// Nodes whose neighbour sets are disjoint share nothing: their score is 0
/// and graded low.
pub proof fn lemma_overlap_disjoint(g: Map<u32, Seq<u32>>, u: u32, v: u32)
    requires
        forall|x: u32| #[trigger] neighbors(g, u).contains(x) ==> !neighbors(g, v).contains(x),
    ensures
        shared_neighbors(g, u, v).len() == 0,
        level_of(0, all_neighbors(g, u, v).len() as int) == SimilarityLevel::Low,
{
    assert(shared_neighbors(g, u, v) =~= Set::empty());
}

/// Overlap does not depend on the order of the two nodes.
pub proof fn lemma_overlap_symmetric(g: Map<u32, Seq<u32>>, u: u32, v: u32)
    ensures
        shared_neighbors(g, u, v) == shared_neighbors(g, v, u),
        all_neighbors(g, u, v) == all_neighbors(g, v, u),
{
    assert(shared_neighbors(g, u, v) =~= shared_neighbors(g, v, u));
    assert(all_neighbors(g, u, v) =~= all_neighbors(g, v, u));
}

} // verus!
