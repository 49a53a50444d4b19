//! The integer side of source-restricted betweenness centrality: choosing
//! the sources, and the shortest-path structure from one source.
use std::collections::HashMap;
use vstd::prelude::*;
use crate::bfs::{bfs_visit, is_distance, reachable};
use crate::graph::{neighbors, AdjacencyList};

verus! {

broadcast use vstd::std_specs::hash::group_hash_axioms;

/// `a` ranks before `b` by degree: higher degree first, then smaller id.
pub open spec fn degree_ranks_before(g: Map<u32, Seq<u32>>, a: u32, b: u32) -> bool {
    neighbors(g, a).len() > neighbors(g, b).len() || (neighbors(g, a).len() == neighbors(g, b).len()
        && a < b)
}

/// Whether node `a` ranks before node `b` by degree.
fn ranks_before_exec(graph: &AdjacencyList, a: u32, b: u32) -> (r: bool)
    requires
        graph.wf(),
    ensures
        r == degree_ranks_before(graph@, a, b),
{
    let da = match graph.get(a) {
        Some(l) => l.len(),
        None => 0,
    };
    let db = match graph.get(b) {
        Some(l) => l.len(),
        None => 0,
    };
    da > db || (da == db && a < b)
}

/// The `top_n` nodes of highest degree, highest first, equal degrees by
/// ascending id (fewer when the graph has fewer nodes).
pub fn top_degree_nodes(graph: &AdjacencyList, top_n: usize) -> (r: Vec<u32>)
    requires
        graph.wf(),
    ensures
        r.len() == if top_n < graph@.dom().len() { top_n as int } else { graph@.dom().len() as int },
        forall|k: int| 0 <= k < r.len() ==> graph@.contains_key(#[trigger] r@[k]),
        forall|i: int, j: int|
            0 <= i < j < r.len() ==> degree_ranks_before(graph@, #[trigger] r@[i], #[trigger] r@[j]),
        forall|y: u32, k: int|
            graph@.contains_key(y) && !r@.contains(y) && 0 <= k < r.len() ==> #[trigger] degree_ranks_before(graph@, r@[k], y),
{
    let ghost g = graph@;
    let nodes = graph.node_ids();
    let mut r: Vec<u32> = Vec::new();
    let mut i: usize = 0;
    while i < nodes.len()
        invariant
            g == graph@,
            graph.wf(),
            nodes@ == graph.order(),
            i <= nodes.len(),
            r.len() == if top_n < i { top_n as int } else { i as int },
            forall|k: int| 0 <= k < r.len() ==> nodes@.subrange(0, i as int).contains(#[trigger] r@[k]),
            forall|a: int, b: int|
                0 <= a < b < r.len() ==> degree_ranks_before(g, #[trigger] r@[a], #[trigger] r@[b]),
            forall|y: u32, k: int|
                nodes@.subrange(0, i as int).contains(y) && !r@.contains(y) && 0 <= k < r.len()
                    ==> #[trigger] degree_ranks_before(g, r@[k], y),
            i <= top_n ==> forall|y: u32| nodes@.subrange(0, i as int).contains(y) ==> #[trigger] r@.contains(y),
        decreases nodes.len() - i,
    {
        let x = nodes[i];
        let ghost pre = nodes@.subrange(0, i as int);
        let ghost nxt = nodes@.subrange(0, i + 1);
        proof {
            assert(!pre.contains(x)) by {
                if pre.contains(x) {
                    let q = choose|q: int| 0 <= q < pre.len() && pre[q] == x;
                    assert(nodes@[q] == nodes@[i as int]);
                }
            }
            assert(!r@.contains(x)) by {
                if r@.contains(x) {
                    let q = choose|q: int| 0 <= q < r.len() && r@[q] == x;
                    assert(pre.contains(r@[q]));
                }
            }
            assert forall|z: u32| nxt.contains(z) <==> pre.contains(z) || z == x by {
                if nxt.contains(z) && z != x {
                    let q = choose|q: int| 0 <= q < nxt.len() && nxt[q] == z;
                    assert(pre[q] == z);
                }
                if pre.contains(z) {
                    let q = choose|q: int| 0 <= q < pre.len() && pre[q] == z;
                    assert(nxt[q] == z);
                }
                if z == x {
                    assert(nxt[i as int] == z);
                }
            }
        }
        let mut p: usize = 0;
        while p < r.len() && ranks_before_exec(graph, r[p], x)
            invariant
                g == graph@,
                graph.wf(),
                p <= r.len(),
                forall|q: int| 0 <= q < p ==> degree_ranks_before(g, #[trigger] r@[q], x),
            decreases r.len() - p,
        {
            p = p + 1;
        }
        let ghost r0 = r@;
        proof {
            assert forall|q: int| p <= q < r0.len() implies degree_ranks_before(g, x, #[trigger] r0[q]) by {
                assert(!degree_ranks_before(g, r0[p as int], x));
                assert(r0[p as int] != x);
                if q > p {
                    assert(degree_ranks_before(g, r0[p as int], r0[q]));
                }
            }
        }
        if p < top_n {
            r.insert(p, x);
            let ghost r1 = r@;
            if r.len() > top_n {
                r.pop();
            }
            proof {
                assert forall|k: int| 0 <= k < r.len() implies #[trigger] r@[k] == if k < p {
                    r0[k]
                } else if k == p {
                    x
                } else {
                    r0[k - 1]
                } by {
                    assert(r@[k] == r1[k]);
                }
                if i + 1 <= top_n {
                    assert(r@ == r1);
                    assert forall|y: u32| nxt.contains(y) implies #[trigger] r@.contains(y) by {
                        if y == x {
                            assert(r@[p as int] == x);
                        } else {
                            assert(r0.contains(y));
                            let q = choose|q: int| 0 <= q < r0.len() && r0[q] == y;
                            if q < p {
                                assert(r@[q] == y);
                            } else {
                                assert(r@[q + 1] == y);
                            }
                        }
                    }
                }
                assert forall|k: int| 0 <= k < r.len() implies nxt.contains(#[trigger] r@[k]) by {
                    if k < p {
                        assert(pre.contains(r0[k]));
                    } else if k > p {
                        assert(pre.contains(r0[k - 1]));
                    }
                }
                assert forall|a: int, b: int| 0 <= a < b < r.len() implies degree_ranks_before(
                    g,
                    #[trigger] r@[a],
                    #[trigger] r@[b],
                ) by {
                    if b < p {
                        assert(degree_ranks_before(g, r0[a], r0[b]));
                    } else if a > p {
                        assert(degree_ranks_before(g, r0[a - 1], r0[b - 1]));
                    } else if a < p && b > p {
                        assert(degree_ranks_before(g, r0[a], r0[b - 1]));
                    }
                }
                assert forall|y: u32, k: int|
                    nxt.contains(y) && !r@.contains(y) && 0 <= k < r.len() implies #[trigger] degree_ranks_before(g, r@[k], y) by {
                    if y == x {
                        assert(r@[p as int] == x);
                    } else if r0.contains(y) {
                        // the element dropped from the end ranks after every kept one
                        let q = choose|q: int| 0 <= q < r0.len() && r0[q] == y;
                        let qi = if q < p { q } else { q + 1 };
                        assert(r1[qi] == y);
                        if r1.len() <= top_n {
                            assert(r@ == r1);
                            assert(r@.contains(y));
                        }
                        if qi < r1.len() - 1 {
                            assert(r@[qi] == y);
                        }
                        assert(q >= p && q == r0.len() - 1);
                        if k < p {
                            assert(degree_ranks_before(g, r0[k], r0[q]));
                        } else if k > p {
                            assert(degree_ranks_before(g, r0[k - 1], r0[q]));
                        }
                    } else {
                        assert(pre.contains(y));
                        if k < p {
                            assert(degree_ranks_before(g, r0[k], y));
                        } else if k > p {
                            assert(degree_ranks_before(g, r0[k - 1], y));
                        } else {
                            if p < r0.len() {
                                assert(degree_ranks_before(g, r0[p as int], y));
                            } else {
                                assert(r0.contains(y));
                            }
                        }
                    }
                }
            }
        } else {
            proof {
                assert(p == r0.len());
                assert forall|y: u32, k: int|
                    nxt.contains(y) && !r@.contains(y) && 0 <= k < r.len() implies #[trigger] degree_ranks_before(g, r@[k], y) by {
                    if y != x {
                        assert(pre.contains(y));
                    }
                }
                assert forall|k: int| 0 <= k < r.len() implies nxt.contains(#[trigger] r@[k]) by {
                    assert(pre.contains(r@[k]));
                }
            }
        }
        i = i + 1;
    }
    proof {
        assert(nodes@.subrange(0, i as int) =~= nodes@);
        graph.order().unique_seq_to_set();
        assert(graph@.dom() =~= graph.order().to_set());
    }
    r
}

/// The entries of `nb` that lie one hop closer to the source than a node at
/// distance `dw`, in their order in `nb`.
pub open spec fn closer_neighbors(nb: Seq<u32>, dist: Map<u32, usize>, dw: int) -> Seq<u32>
    decreases nb.len(),
{
    if nb.len() == 0 {
        nb
    } else {
        let sub = closer_neighbors(nb.drop_last(), dist, dw);
        let v = nb.last();
        if dist.contains_key(v) && dist[v] + 1 == dw {
            sub.push(v)
        } else {
            sub
        }
    }
}

/// Sum of the path counts of the nodes of `vs`, saturating at `u64::MAX`.
pub open spec fn saturating_total(vs: Seq<u32>, sigma: Map<u32, u64>) -> int
    decreases vs.len(),
{
    if vs.len() == 0 {
        0
    } else {
        let t = saturating_total(vs.drop_last(), sigma) + sigma[vs.last()];
        if t > u64::MAX {
            u64::MAX as int
        } else {
            t
        }
    }
}

proof fn lemma_saturating_total_frame(vs: Seq<u32>, s1: Map<u32, u64>, s2: Map<u32, u64>)
    requires
        forall|i: int| 0 <= i < vs.len() ==> s1[#[trigger] vs[i]] == s2[vs[i]],
    ensures
        saturating_total(vs, s1) == saturating_total(vs, s2),
        0 <= saturating_total(vs, s1) <= u64::MAX,
    decreases vs.len(),
{
    if vs.len() > 0 {
        let init = vs.drop_last();
        assert forall|i: int| 0 <= i < init.len() implies s1[#[trigger] init[i]] == s2[init[i]] by {
            assert(init[i] == vs[i]);
        }
        lemma_saturating_total_frame(init, s1, s2);
        assert(s1[vs[vs.len() - 1]] == s2[vs[vs.len() - 1]]);
    }
}

/// The shortest-path structure from one source: the distance of each reached
/// node, the reached nodes in visiting order, each node's predecessors on
/// shortest paths, and each node's number of shortest paths.
pub struct ShortestPaths {
    pub dist: HashMap<u32, usize>,
    pub order: Vec<u32>,
    pub preds: HashMap<u32, Vec<u32>>,
    pub sigma: HashMap<u32, u64>,
}

/// Forward pass of Brandes' accumulation from `source`. The source has one
/// path; any other reached node has as many as its predecessors together
/// (the neighbours one hop closer to the source), saturating at `u64::MAX`.
pub fn shortest_path_counts(graph: &AdjacencyList, source: u32) -> (r: ShortestPaths)
    requires
        graph.wf(),
    ensures
        r.dist@.contains_key(source) && r.dist@[source] == 0,
        forall|t: u32| #[trigger] r.dist@.contains_key(t) <==> reachable(graph@, source, t),
        forall|t: u32| #[trigger] r.dist@.contains_key(t) ==> is_distance(graph@, source, t, r.dist@[t] as nat),
        r.order@.no_duplicates(),
        forall|t: u32| #[trigger] r.order@.contains(t) <==> r.dist@.contains_key(t),
        forall|i: int, j: int|
            0 <= i <= j < r.order@.len() ==> r.dist@[#[trigger] r.order@[i]] <= r.dist@[#[trigger] r.order@[j]],
        forall|w: u32| #[trigger] r.preds@.contains_key(w) <==> r.dist@.contains_key(w),
        forall|w: u32| #[trigger] r.sigma@.contains_key(w) <==> r.dist@.contains_key(w),
        forall|w: u32| #[trigger] r.dist@.contains_key(w) ==> r.preds@[w]@ == closer_neighbors(
            neighbors(graph@, w),
            r.dist@,
            r.dist@[w] as int,
        ),
        r.sigma@[source] == 1,
        forall|w: u32|
            #[trigger] r.dist@.contains_key(w) && w != source ==> r.sigma@[w] == saturating_total(
                r.preds@[w]@,
                r.sigma@,
            ),
{
    let ghost g = graph@;
    let (dist, order) = bfs_visit(graph, source);
    let ghost dm = dist@;
    let mut preds: HashMap<u32, Vec<u32>> = HashMap::new();
    let mut sigma: HashMap<u32, u64> = HashMap::new();
    let empty: Vec<u32> = Vec::new();
    let mut k: usize = 0;
    while k < order.len()
        invariant
            g == graph@,
            graph.wf(),
            dm == dist@,
            dm.contains_key(source) && dm[source] == 0,
            forall|t: u32| #[trigger] dm.contains_key(t) ==> is_distance(g, source, t, dm[t] as nat),
            order@.no_duplicates(),
            forall|t: u32| #[trigger] order@.contains(t) <==> dm.contains_key(t),
            forall|i: int, j: int|
                0 <= i <= j < order@.len() ==> dm[#[trigger] order@[i]] <= dm[#[trigger] order@[j]],
            k <= order.len(),
            empty@ == Seq::<u32>::empty(),
            forall|w: u32| #[trigger] sigma@.contains_key(w) <==> order@.subrange(0, k as int).contains(w),
            forall|w: u32| #[trigger] preds@.contains_key(w) <==> order@.subrange(0, k as int).contains(w),
            forall|w: u32| #[trigger] preds@.contains_key(w) ==> preds@[w]@ == closer_neighbors(
                neighbors(g, w),
                dm,
                dm[w] as int,
            ),
            forall|w: u32| #[trigger] preds@.contains_key(w) ==> forall|i: int|
                0 <= i < preds@[w]@.len() ==> sigma@.contains_key(#[trigger] preds@[w]@[i]),
            sigma@.contains_key(source) ==> sigma@[source] == 1,
            forall|w: u32|
                #[trigger] sigma@.contains_key(w) && w != source ==> sigma@[w] == saturating_total(
                    preds@[w]@,
                    sigma@,
                ),
        decreases order.len() - k,
    {
        let w = order[k];
        proof {
            assert(order@[k as int] == w);
            assert(order@.contains(w));
        }
        let dw = *dist.get(&w).unwrap();
        let nbrs = match graph.get(w) {
            Some(l) => l,
            None => &empty,
        };
        let ghost pre = order@.subrange(0, k as int);
        proof {
            assert(order@.contains(w)) by {
                assert(order@[k as int] == w);
            }
            assert(!pre.contains(w)) by {
                if pre.contains(w) {
                    let q = choose|q: int| 0 <= q < pre.len() && pre[q] == w;
                    assert(order@[q] == order@[k as int]);
                }
            }
        }
        let mut pw: Vec<u32> = Vec::new();
        let mut total: u64 = 0;
        let mut j: usize = 0;
        while j < nbrs.len()
            invariant
                nbrs@ == neighbors(g, w),
                j <= nbrs.len(),
                dm == dist@,
                dm.contains_key(w),
                dw == dm[w],
                w == order@[k as int],
                k < order.len(),
                pre == order@.subrange(0, k as int),
                order@.no_duplicates(),
                forall|t: u32| #[trigger] order@.contains(t) <==> dm.contains_key(t),
                forall|i: int, j: int|
                    0 <= i <= j < order@.len() ==> dm[#[trigger] order@[i]] <= dm[#[trigger] order@[j]],
                forall|t: u32| #[trigger] sigma@.contains_key(t) <==> pre.contains(t),
                pw@ == closer_neighbors(nbrs@.subrange(0, j as int), dm, dw as int),
                forall|i: int| 0 <= i < pw@.len() ==> sigma@.contains_key(#[trigger] pw@[i]),
                total == saturating_total(pw@, sigma@),
            decreases nbrs.len() - j,
        {
            let v = nbrs[j];
            let ghost p0 = pw@;
            proof {
                assert(nbrs@.subrange(0, j + 1).drop_last() =~= nbrs@.subrange(0, j as int));
            }
            match dist.get(&v) {
                Some(dv) => {
                    if dw > 0 && *dv == dw - 1 {
                        proof {
                            assert(order@.contains(v));
                            let q = choose|q: int| 0 <= q < order@.len() && order@[q] == v;
                            if q >= k {
                                assert(dm[order@[k as int]] <= dm[order@[q]]);
                            }
                            assert(pre[q] == v);
                            assert(sigma@.contains_key(v));
                        }
                        let sv = *sigma.get(&v).unwrap();
                        pw.push(v);
                        if total > u64::MAX - sv {
                            total = u64::MAX;
                        } else {
                            total = total + sv;
                        }
                        proof {
                            assert(pw@.drop_last() =~= p0);
                            assert forall|i: int| 0 <= i < pw@.len() implies sigma@.contains_key(#[trigger] pw@[i]) by {
                                if i < p0.len() {
                                    assert(pw@[i] == p0[i]);
                                }
                            }
                        }
                    }
                },
                None => {},
            }
            j = j + 1;
        }
        proof {
            assert(nbrs@.subrange(0, j as int) =~= nbrs@);
        }
        if w == source {
            total = 1;
        }
        let ghost s0 = sigma@;
        let ghost pr0 = preds@;
        sigma.insert(w, total);
        preds.insert(w, pw);
        proof {
            let nxt = order@.subrange(0, k + 1);
            assert forall|t: u32| nxt.contains(t) <==> pre.contains(t) || t == w by {
                if nxt.contains(t) && t != w {
                    let q = choose|q: int| 0 <= q < nxt.len() && nxt[q] == t;
                    assert(pre[q] == t);
                }
                if pre.contains(t) {
                    let q = choose|q: int| 0 <= q < pre.len() && pre[q] == t;
                    assert(nxt[q] == t);
                }
                if t == w {
                    assert(nxt[k as int] == t);
                }
            }
            assert forall|t: u32| #[trigger] preds@.contains_key(t) implies forall|i: int|
                0 <= i < preds@[t]@.len() ==> sigma@.contains_key(#[trigger] preds@[t]@[i]) by {
                if t != w {
                    assert(pr0.contains_key(t));
                }
            }
            assert forall|t: u32|
                #[trigger] sigma@.contains_key(t) && t != source implies sigma@[t] == saturating_total(
                    preds@[t]@,
                    sigma@,
                ) by {
                let vs = preds@[t]@;
                assert forall|i: int| 0 <= i < vs.len() implies s0[#[trigger] vs[i]] == sigma@[vs[i]] by {
                    if t == w {
                        assert(s0.contains_key(vs[i]));
                    } else {
                        assert(pr0.contains_key(t));
                        assert(s0.contains_key(vs[i]));
                    }
                    assert(vs[i] != w);
                }
                lemma_saturating_total_frame(vs, s0, sigma@);
                if t != w {
                    assert(s0.contains_key(t));
                }
            }
        }
        k = k + 1;
    }
    proof {
        assert(order@.subrange(0, k as int) =~= order@);
        assert(order@.contains(source));
        assert(sigma@.contains_key(source));
        assert forall|t: u32| #[trigger] dm.contains_key(t) implies preds@[t]@ == closer_neighbors(
            neighbors(g, t),
            dm,
            dm[t] as int,
        ) by {
            assert(order@.contains(t));
            assert(preds@.contains_key(t));
        }
        assert forall|t: u32| #[trigger] dm.contains_key(t) && t != source implies sigma@[t]
            == saturating_total(preds@[t]@, sigma@) by {
            assert(order@.contains(t));
            assert(sigma@.contains_key(t));
        }
    }
    ShortestPaths { dist, order, preds, sigma }
}

} // verus!
