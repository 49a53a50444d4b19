//! Breadth-first distances from one source.
use std::collections::{HashMap, VecDeque};
use vstd::prelude::*;
use crate::graph::{lemma_u32_set_bound, neighbors, symmetric, AdjacencyList};

verus! {

broadcast use vstd::std_specs::hash::group_hash_axioms;

/// `p` is a walk in `g` from `s` to `t`: a non-empty node sequence whose
/// consecutive nodes are adjacent.
pub open spec fn is_walk(g: Map<u32, Seq<u32>>, p: Seq<u32>, s: u32, t: u32) -> bool {
    &&& p.len() >= 1
    &&& p[0] == s
    &&& p.last() == t
    &&& forall|i: int| 0 <= i < p.len() - 1 ==> #[trigger] neighbors(g, p[i]).contains(p[i + 1])
}

/// `t` can be reached from `s` by a walk.
pub open spec fn reachable(g: Map<u32, Seq<u32>>, s: u32, t: u32) -> bool {
    exists|p: Seq<u32>| #[trigger] is_walk(g, p, s, t)
}

/// `d` is the hop count of a shortest walk from `s` to `t`.
pub open spec fn is_distance(g: Map<u32, Seq<u32>>, s: u32, t: u32, d: nat) -> bool {
    &&& exists|p: Seq<u32>| #[trigger] is_walk(g, p, s, t) && p.len() == d + 1
    &&& forall|p: Seq<u32>| #[trigger] is_walk(g, p, s, t) ==> p.len() >= d + 1
}

/// Every neighbour of `v` has a recorded distance at most one more than `v`'s.
spec fn settled(g: Map<u32, Seq<u32>>, dist: Map<u32, usize>, v: u32) -> bool {
    forall|y: u32| #[trigger]
        neighbors(g, v).contains(y) ==> dist.contains_key(y) && dist[y] <= dist[v] + 1
}

/// Along any walk from `s`, a distance map that holds `s` at 0 and in which
/// every recorded node is settled records the end at no more than the walk's
/// hop count.
proof fn lemma_walk_bound(g: Map<u32, Seq<u32>>, dist: Map<u32, usize>, p: Seq<u32>, s: u32, t: u32)
    requires
        is_walk(g, p, s, t),
        dist.contains_key(s),
        dist[s] == 0,
        forall|v: u32| #[trigger] dist.contains_key(v) ==> settled(g, dist, v),
    ensures
        dist.contains_key(t),
        dist[t] + 1 <= p.len(),
    decreases p.len(),
{
    if p.len() > 1 {
        let q = p.drop_last();
        let u = q.last();
        assert forall|i: int| 0 <= i < q.len() - 1 implies #[trigger] neighbors(g, q[i]).contains(
            q[i + 1],
        ) by {
            assert(neighbors(g, p[i]).contains(p[i + 1]));
        }
        lemma_walk_bound(g, dist, q, s, u);
        let k = p.len() - 2;
        assert(neighbors(g, p[k]).contains(p[k + 1]));
        assert(settled(g, dist, u));
    }
}

/// Breadth-first traversal from `source`: the hop distance of every node
/// reachable from it (unreachable nodes are absent; an unknown source reaches
/// only itself), and the reached nodes in the order they were visited, which
/// is by non-decreasing distance.
pub fn bfs_visit(graph: &AdjacencyList, source: u32) -> (r: (HashMap<u32, usize>, Vec<u32>))
    requires
        graph.wf(),
    ensures
        r.0@.contains_key(source) && r.0@[source] == 0,
        forall|t: u32| #[trigger] r.0@.contains_key(t) <==> reachable(graph@, source, t),
        forall|t: u32| #[trigger] r.0@.contains_key(t) ==> is_distance(graph@, source, t, r.0@[t] as nat),
        r.1@.no_duplicates(),
        forall|t: u32| #[trigger] r.1@.contains(t) <==> r.0@.contains_key(t),
        forall|i: int, j: int| 0 <= i <= j < r.1@.len() ==> r.0@[#[trigger] r.1@[i]] <= r.0@[#[trigger] r.1@[j]],
{
    let ghost g = graph@;
    let mut dist: HashMap<u32, usize> = HashMap::new();
    let mut queue: VecDeque<u32> = VecDeque::new();
    let mut visited: Vec<u32> = Vec::new();
    dist.insert(source, 0);
    queue.push_back(source);
    let ghost mut wit: Map<u32, Seq<u32>> = Map::empty().insert(source, seq![source]);
    proof {
        assert(dist@.dom() =~= set![source]);
        lemma_u32_set_bound(dist@.dom());
        assert(is_walk(g, seq![source], source, source));
    }
    loop
        invariant
            g == graph@,
            graph.wf(),
            dist@.contains_key(source),
            dist@[source] == 0,
            dist@.dom().finite(),
            dist@.len() <= 0x1_0000_0000,
            forall|v: u32| #[trigger] dist@.contains_key(v) ==> (dist@[v] as int) < dist@.len(),
            forall|v: u32| #[trigger]
                dist@.contains_key(v) ==> wit.contains_key(v) && is_walk(g, wit[v], source, v)
                    && wit[v].len() == dist@[v] + 1,
            queue@.no_duplicates(),
            forall|i: int| 0 <= i < queue@.len() ==> #[trigger] dist@.contains_key(queue@[i]),
            forall|i: int, j: int|
                0 <= i <= j < queue@.len() ==> dist@[#[trigger] queue@[i]] <= dist@[#[trigger] queue@[j]],
            queue@.len() > 0 ==> forall|i: int|
                0 <= i < queue@.len() ==> dist@[#[trigger] queue@[i]] <= dist@[queue@[0]] + 1,
            forall|v: u32| #[trigger]
                dist@.contains_key(v) && !queue@.contains(v) ==> settled(g, dist@, v),
            queue@.len() > 0 ==> forall|v: u32| #[trigger]
                dist@.contains_key(v) && !queue@.contains(v) ==> dist@[v] <= dist@[queue@[0]],
            visited@.no_duplicates(),
            forall|v: u32| #[trigger] visited@.contains(v) <==> dist@.contains_key(v) && !queue@.contains(v),
            forall|i: int, j: int|
                0 <= i <= j < visited@.len() ==> dist@[#[trigger] visited@[i]] <= dist@[#[trigger] visited@[j]],
            queue@.len() > 0 ==> forall|i: int|
                0 <= i < visited@.len() ==> dist@[#[trigger] visited@[i]] <= dist@[queue@[0]],
        ensures
            visited@.no_duplicates(),
            forall|v: u32| #[trigger] visited@.contains(v) <==> dist@.contains_key(v),
            forall|i: int, j: int|
                0 <= i <= j < visited@.len() ==> dist@[#[trigger] visited@[i]] <= dist@[#[trigger] visited@[j]],
            queue@.len() == 0,
            forall|v: u32| #[trigger] dist@.contains_key(v) ==> settled(g, dist@, v),
            forall|v: u32| #[trigger]
                dist@.contains_key(v) ==> wit.contains_key(v) && is_walk(g, wit[v], source, v)
                    && wit[v].len() == dist@[v] + 1,
            dist@.contains_key(source),
            dist@[source] == 0,
        decreases (0x1_0000_0000 - dist@.len()) * 2 + queue@.len(),
    {
        let ghost q0 = queue@;
        let ghost len0 = dist@.len();
        let x = match queue.pop_front() {
            Some(x) => x,
            None => {
                proof {
                    assert forall|v: u32| #[trigger] dist@.contains_key(v) implies settled(g, dist@, v) by {
                        assert(!queue@.contains(v));
                    }
                    assert forall|v: u32| #[trigger] visited@.contains(v) <==> dist@.contains_key(v) by {
                        assert(!queue@.contains(v));
                    }
                }
                break;
            },
        };
        let d = *dist.get(&x).unwrap();
        let ghost vis0 = visited@;
        proof {
            assert(!vis0.contains(x)) by {
                assert(q0.contains(x)) by {
                    assert(q0[0] == x);
                }
            }
        }
        visited.push(x);
        proof {
            assert forall|v: u32| #[trigger] visited@.contains(v) <==> vis0.contains(v) || v == x by {
                if visited@.contains(v) && v != x {
                    let i = choose|i: int| 0 <= i < visited@.len() && visited@[i] == v;
                    assert(vis0[i] == v);
                }
                if vis0.contains(v) {
                    let i = choose|i: int| 0 <= i < vis0.len() && vis0[i] == v;
                    assert(visited@[i] == v);
                }
                if v == x {
                    assert(visited@[vis0.len() as int] == x);
                }
            }
            assert forall|i: int| 0 <= i < visited@.len() implies dist@[#[trigger] visited@[i]] <= d by {
                if i < vis0.len() {
                    assert(dist@[vis0[i]] <= dist@[q0[0]]);
                }
            }
        }
        proof {
            assert(q0[0] == x);
            assert forall|v: u32| #[trigger] queue@.contains(v) <==> q0.contains(v) && v != x by {
                if queue@.contains(v) {
                    let i = choose|i: int| 0 <= i < queue@.len() && queue@[i] == v;
                    assert(q0[i + 1] == v);
                }
                if q0.contains(v) && v != x {
                    let i = choose|i: int| 0 <= i < q0.len() && q0[i] == v;
                    assert(i != 0);
                    assert(queue@[i - 1] == v);
                }
            }
        }
        let n = dist.len();
        if let Some(nbrs) = graph.get(x) {
            let mut b: usize = 0;
            while b < nbrs.len()
                invariant
                    g == graph@,
                    nbrs@ == neighbors(g, x),
                    b <= nbrs.len(),
                    dist@.contains_key(x),
                    dist@[x] == d,
                    d < n,
                    dist@.contains_key(source),
                    dist@[source] == 0,
                    dist@.dom().finite(),
                    forall|v: u32| #[trigger] dist@.contains_key(v) ==> (dist@[v] as int) < dist@.len(),
                    forall|v: u32| #[trigger]
                        dist@.contains_key(v) ==> wit.contains_key(v) && is_walk(g, wit[v], source, v)
                            && wit[v].len() == dist@[v] + 1,
                    queue@.no_duplicates(),
                    !queue@.contains(x),
                    forall|i: int| 0 <= i < queue@.len() ==> #[trigger] dist@.contains_key(queue@[i]),
                    forall|i: int, j: int|
                        0 <= i <= j < queue@.len() ==> dist@[#[trigger] queue@[i]] <= dist@[#[trigger] queue@[j]],
                    forall|i: int|
                        0 <= i < queue@.len() ==> d <= dist@[#[trigger] queue@[i]] <= d + 1,
                    forall|v: u32| #[trigger] dist@.contains_key(v) ==> dist@[v] <= d + 1,
                    forall|v: u32| #[trigger]
                        dist@.contains_key(v) && !queue@.contains(v) && v != x ==> settled(g, dist@, v)
                            && dist@[v] <= d,
                    forall|j: int|
                        0 <= j < b ==> dist@.contains_key(#[trigger] nbrs@[j]) && dist@[nbrs@[j]] <= d + 1,
                    len0 <= dist@.len(),
                    visited@.no_duplicates(),
                    forall|v: u32| #[trigger] visited@.contains(v) <==> dist@.contains_key(v) && !queue@.contains(v),
                    forall|i: int, j: int|
                        0 <= i <= j < visited@.len() ==> dist@[#[trigger] visited@[i]] <= dist@[#[trigger] visited@[j]],
                    forall|i: int| 0 <= i < visited@.len() ==> dist@[#[trigger] visited@[i]] <= d,
                    dist@.len() == len0 + (queue@.len() - (q0.len() - 1)),
                decreases nbrs.len() - b,
            {
                let y = nbrs[b];
                if !dist.contains_key(&y) {
                    let ghost wy = wit[x].push(y);
                    proof {
                        assert(neighbors(g, x).contains(y)) by {
                            assert(nbrs@[b as int] == y);
                        }
                        let wx = wit[x];
                        assert forall|i: int| 0 <= i < wy.len() - 1 implies #[trigger] neighbors(
                            g,
                            wy[i],
                        ).contains(wy[i + 1]) by {
                            if i < wx.len() - 1 {
                                assert(neighbors(g, wx[i]).contains(wx[i + 1]));
                            }
                        }
                        assert(is_walk(g, wy, source, y));
                        assert(!queue@.contains(y));
                    }
                    let ghost dprev = dist@;
                    let ghost qprev = queue@;
                    dist.insert(y, d + 1);
                    queue.push_back(y);
                    proof {
                        wit = wit.insert(y, wy);
                        assert forall|v: u32| #[trigger] queue@.contains(v) <==> qprev.contains(v) || v == y by {
                            if queue@.contains(v) && v != y {
                                let i = choose|i: int| 0 <= i < queue@.len() && queue@[i] == v;
                                assert(qprev[i] == v);
                            }
                            if qprev.contains(v) {
                                let i = choose|i: int| 0 <= i < qprev.len() && qprev[i] == v;
                                assert(queue@[i] == v);
                            }
                            if v == y {
                                assert(queue@[qprev.len() as int] == y);
                            }
                        }
                        assert forall|i: int| 0 <= i < visited@.len() implies dist@[#[trigger] visited@[i]]
                            == dprev[visited@[i]] by {
                            assert(visited@.contains(visited@[i]));
                            assert(dprev.contains_key(visited@[i]));
                        }
                        assert forall|v: u32| #[trigger] visited@.contains(v) <==> dist@.contains_key(v)
                            && !queue@.contains(v) by {
                            if v == y {
                                assert(queue@.contains(y));
                            }
                        }
                        assert forall|v: u32| #[trigger] dist@.contains_key(v) && !queue@.contains(v) && v
                            != x implies settled(g, dist@, v) && dist@[v] <= d by {
                            assert(dprev.contains_key(v) && !qprev.contains(v));
                            assert(settled(g, dprev, v));
                            assert forall|z: u32| #[trigger] neighbors(g, v).contains(z) implies dist@.contains_key(z)
                                && dist@[z] <= dist@[v] + 1 by {
                                assert(dprev.contains_key(z));
                            }
                        }
                    }
                }
                b = b + 1;
            }
        }
        proof {
            lemma_u32_set_bound(dist@.dom());
            assert(settled(g, dist@, x)) by {
                assert forall|y: u32| #[trigger] neighbors(g, x).contains(y) implies dist@.contains_key(y)
                    && dist@[y] <= dist@[x] + 1 by {
                    if graph@.contains_key(x) {
                        let j = choose|j: int| 0 <= j < neighbors(g, x).len() && neighbors(g, x)[j] == y;
                    }
                }
            }
        }
    }
    proof {
        assert forall|v: u32| #[trigger] dist@.contains_key(v) implies settled(g, dist@, v) by {
            assert(!queue@.contains(v));
        }
        assert forall|t: u32| #[trigger] dist@.contains_key(t) <==> reachable(g, source, t) by {
            if dist@.contains_key(t) {
                assert(is_walk(g, wit[t], source, t));
            }
            if reachable(g, source, t) {
                let p = choose|p: Seq<u32>| #[trigger] is_walk(g, p, source, t);
                lemma_walk_bound(g, dist@, p, source, t);
            }
        }
        assert forall|t: u32| #[trigger] dist@.contains_key(t) implies is_distance(
            g,
            source,
            t,
            dist@[t] as nat,
        ) by {
            assert(is_walk(g, wit[t], source, t) && wit[t].len() == dist@[t] + 1);
            assert forall|p: Seq<u32>| #[trigger] is_walk(g, p, source, t) implies p.len() >= dist@[t] + 1 by {
                lemma_walk_bound(g, dist@, p, source, t);
            }
        }
    }
    (dist, visited)
}

/// Hop distance from `source` to every node reachable from it; nodes that
/// cannot be reached are absent. An unknown source reaches only itself.
pub fn bfs_shortest_path(graph: &AdjacencyList, source: u32) -> (r: HashMap<u32, usize>)
    requires
        graph.wf(),
    ensures
        r@.contains_key(source) && r@[source] == 0,
        forall|t: u32| #[trigger] r@.contains_key(t) <==> reachable(graph@, source, t),
        forall|t: u32| #[trigger] r@.contains_key(t) ==> is_distance(graph@, source, t, r@[t] as nat),
{
    let (dist, _) = bfs_visit(graph, source);
    dist
}

/// In a symmetric graph a walk read backwards is a walk.
proof fn lemma_reverse_walk(g: Map<u32, Seq<u32>>, p: Seq<u32>, s: u32, t: u32)
    requires
        symmetric(g),
        is_walk(g, p, s, t),
    ensures
        is_walk(g, p.reverse(), t, s),
        p.reverse().len() == p.len(),
{
    let r = p.reverse();
    let n = p.len() as int;
    assert forall|i: int| 0 <= i < r.len() - 1 implies #[trigger] neighbors(g, r[i]).contains(r[i + 1]) by {
        let j = n - 2 - i;
        assert(neighbors(g, p[j]).contains(p[j + 1]));
        assert(r[i] == p[j + 1] && r[i + 1] == p[j]);
    }
}

/// In a symmetric graph the shortest distance from `u` to `v` equals the
/// shortest distance from `v` to `u`.
pub proof fn lemma_distance_symmetric(g: Map<u32, Seq<u32>>, u: u32, v: u32, d1: nat, d2: nat)
    requires
        symmetric(g),
        is_distance(g, u, v, d1),
        is_distance(g, v, u, d2),
    ensures
        d1 == d2,
{
    let p = choose|p: Seq<u32>| #[trigger] is_walk(g, p, u, v) && p.len() == d1 + 1;
    let q = choose|q: Seq<u32>| #[trigger] is_walk(g, q, v, u) && q.len() == d2 + 1;
    lemma_reverse_walk(g, p, u, v);
    lemma_reverse_walk(g, q, v, u);
}

/// Breadth-first distances agree in both directions on a symmetric graph:
/// when `v` is reached from `u`, `u` is reached from `v` at the same distance.
pub proof fn lemma_bfs_symmetric(
    g: Map<u32, Seq<u32>>,
    u: u32,
    v: u32,
    from_u: Map<u32, usize>,
    from_v: Map<u32, usize>,
)
    requires
        symmetric(g),
        forall|t: u32| #[trigger] from_u.contains_key(t) <==> reachable(g, u, t),
        forall|t: u32| #[trigger] from_u.contains_key(t) ==> is_distance(g, u, t, from_u[t] as nat),
        forall|t: u32| #[trigger] from_v.contains_key(t) <==> reachable(g, v, t),
        forall|t: u32| #[trigger] from_v.contains_key(t) ==> is_distance(g, v, t, from_v[t] as nat),
        from_u.contains_key(v),
    ensures
        from_v.contains_key(u),
        from_u[v] == from_v[u],
{
    assert(reachable(g, u, v));
    let p = choose|p: Seq<u32>| #[trigger] is_walk(g, p, u, v);
    lemma_reverse_walk(g, p, u, v);
    assert(reachable(g, v, u));
    assert(from_v.contains_key(u));
    assert(is_distance(g, v, u, from_v[u] as nat));
    lemma_distance_symmetric(g, u, v, from_u[v] as nat, from_v[u] as nat);
}

} // verus!
