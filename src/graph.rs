//! The undirected adjacency structure and the queries over it.
use std::collections::{HashMap, HashSet};
use vstd::prelude::*;
use vstd::set_lib::{lemma_int_range, lemma_len_subset, lemma_map_size, set_int_range};

verus! {

broadcast use vstd::std_specs::hash::group_hash_axioms;

/// Neighbour sequence of `u` in `g`; a node that is absent has none.
pub open spec fn neighbors(g: Map<u32, Seq<u32>>, u: u32) -> Seq<u32> {
    if g.contains_key(u) {
        g[u]
    } else {
        Seq::empty()
    }
}

/// Sum of the neighbour-sequence lengths of the nodes listed in `ks`.
pub open spec fn degree_sum(g: Map<u32, Seq<u32>>, ks: Seq<u32>) -> nat
    decreases ks.len(),
{
    if ks.len() == 0 {
        0
    } else {
        degree_sum(g, ks.drop_last()) + neighbors(g, ks.last()).len()
    }
}

/// `g` after recording the undirected edge `u`–`v`: `v` is appended to the
/// neighbours of `u`, then `u` to the neighbours of `v` (twice to `u` for a
/// self-loop).
pub open spec fn with_edge(g: Map<u32, Seq<u32>>, u: u32, v: u32) -> Map<u32, Seq<u32>> {
    let g1 = g.insert(u, neighbors(g, u).push(v));
    g1.insert(v, neighbors(g1, v).push(u))
}

/// The node order after `u` receives a neighbour list: `u` is appended
/// unless it was already present.
pub open spec fn order_with(o: Seq<u32>, g: Map<u32, Seq<u32>>, u: u32) -> Seq<u32> {
    if g.contains_key(u) {
        o
    } else {
        o.push(u)
    }
}

/// The graph obtained by recording the edges of `es` in order, starting empty.
pub open spec fn built_from(es: Seq<(u32, u32)>) -> Map<u32, Seq<u32>>
    decreases es.len(),
{
    if es.len() == 0 {
        Map::empty()
    } else {
        with_edge(built_from(es.drop_last()), es.last().0, es.last().1)
    }
}

/// Every recorded adjacency is recorded in both directions.
pub open spec fn symmetric(g: Map<u32, Seq<u32>>) -> bool {
    forall|u: u32, v: u32| #[trigger]
        neighbors(g, u).contains(v) <==> #[trigger] neighbors(g, v).contains(u)
}

/// Replacing the neighbours of `k` changes the degree sum over a
/// duplicate-free `ks` only where `ks` lists `k`.
pub proof fn lemma_degree_sum_insert(g: Map<u32, Seq<u32>>, ks: Seq<u32>, k: u32, s: Seq<u32>)
    requires
        ks.no_duplicates(),
    ensures
        degree_sum(g.insert(k, s), ks) as int == if ks.contains(k) {
            degree_sum(g, ks) - neighbors(g, k).len() + s.len()
        } else {
            degree_sum(g, ks) as int
        },
    decreases ks.len(),
{
    if ks.len() > 0 {
        let init = ks.drop_last();
        assert(init.no_duplicates()) by {
            assert forall|i: int, j: int|
                0 <= i < init.len() && 0 <= j < init.len() && i != j implies init[i] != init[j] by {
                assert(init[i] == ks[i] && init[j] == ks[j]);
            }
        }
        lemma_degree_sum_insert(g, init, k, s);
        if ks.last() == k {
            assert(!init.contains(k)) by {
                if init.contains(k) {
                    let i = choose|i: int| 0 <= i < init.len() && init[i] == k;
                    assert(ks[i] == ks[ks.len() - 1]);
                }
            }
        } else {
            assert(ks.contains(k) <==> init.contains(k)) by {
                if ks.contains(k) {
                    let i = choose|i: int| 0 <= i < ks.len() && ks[i] == k;
                    assert(init[i] == k);
                }
                if init.contains(k) {
                    let i = choose|i: int| 0 <= i < init.len() && init[i] == k;
                    assert(ks[i] == k);
                }
            }
        }
    }
}

/// A finite set of `u32` values has at most 2^32 members.
pub proof fn lemma_u32_set_bound(s: Set<u32>)
    requires
        s.finite(),
    ensures
        s.len() <= 0x1_0000_0000,
{
    let f = |k: u32| k as int;
    let y = s.map(f);
    lemma_map_size(s, y, f);
    lemma_int_range(0, 0x1_0000_0000);
    lemma_len_subset(y, set_int_range(0, 0x1_0000_0000));
}

/// Undirected graph: each node present has an ordered neighbour sequence;
/// nodes are kept in order of first appearance.
pub struct AdjacencyList {
    order: Vec<u32>,
    lists: Vec<Vec<u32>>,
    index: HashMap<u32, usize>,
    total: usize,
}

impl View for AdjacencyList {
    type V = Map<u32, Seq<u32>>;

    closed spec fn view(&self) -> Map<u32, Seq<u32>> {
        Map::new(
            |k: u32| self.index@.contains_key(k),
            |k: u32| self.lists@[self.index@[k] as int]@,
        )
    }
}

impl AdjacencyList {
    /// The nodes, in the order in which they first received a neighbour list.
    pub closed spec fn order(&self) -> Seq<u32> {
        self.order@
    }

    /// Sum of all neighbour-sequence lengths.
    pub open spec fn total_degree(&self) -> nat {
        degree_sum(self@, self.order())
    }

    /// Internal consistency of the index, the lists and the running total.
    pub closed spec fn inv(&self) -> bool {
        &&& self.order.len() == self.lists.len()
        &&& forall|k: u32| #[trigger]
            self.index@.contains_key(k) ==> (self.index@[k] as int) < self.order.len()
                && self.order@[self.index@[k] as int] == k
        &&& forall|i: int|
            0 <= i < self.order.len() ==> #[trigger] self.index@.contains_key(self.order@[i])
                && self.index@[self.order@[i]] == i
        &&& self.total as nat == self.total_degree()
    }

    /// Well-formedness: the node order lists each node of the view once.
    pub open spec fn wf(&self) -> bool {
        &&& self.inv()
        &&& self.order().no_duplicates()
        &&& forall|k: u32| #[trigger] self@.contains_key(k) <==> self.order().contains(k)
    }

    /// An empty graph.
    pub fn new() -> (r: AdjacencyList)
        ensures
            r.wf(),
            r@ == Map::<u32, Seq<u32>>::empty(),
            r.order() == Seq::<u32>::empty(),
    {
        let r = AdjacencyList { order: Vec::new(), lists: Vec::new(), index: HashMap::new(), total: 0 };
        assert(r@ =~= Map::<u32, Seq<u32>>::empty());
        r
    }

    /// The neighbour sequence of `node`, if it is present.
    pub fn get(&self, node: u32) -> (r: Option<&Vec<u32>>)
        requires
            self.wf(),
        ensures
            match r {
                Some(l) => self@.contains_key(node) && l@ == self@[node],
                None => !self@.contains_key(node),
            },
    {
        match self.index.get(&node) {
            Some(i) => Some(&self.lists[*i]),
            None => None,
        }
    }

    /// Number of nodes present.
    pub fn len(&self) -> (r: usize)
        requires
            self.wf(),
        ensures
            r == self@.dom().len(),
    {
        proof {
            self.order().unique_seq_to_set();
            assert(self@.dom() =~= self.order().to_set());
        }
        self.order.len()
    }

    /// The nodes present, in order of first appearance.
    pub fn node_ids(&self) -> (r: Vec<u32>)
        requires
            self.wf(),
        ensures
            r@ == self.order(),
    {
        self.order.clone()
    }

    fn push_neighbor(&mut self, u: u32, v: u32)
        requires
            old(self).wf(),
            old(self).total_degree() < usize::MAX,
        ensures
            final(self).wf(),
            final(self)@ == old(self)@.insert(u, neighbors(old(self)@, u).push(v)),
            final(self).total_degree() == old(self).total_degree() + 1,
            final(self).order() == order_with(old(self).order(), old(self)@, u),
    {
        let ghost g0 = self@;
        let ghost o0 = self.order@;
        let ghost ns = neighbors(g0, u).push(v);
        match self.index.get(&u) {
            Some(i) => {
                let i = *i;
                self.lists[i].push(v);
                proof {
                    assert(self@ =~= g0.insert(u, ns));
                    lemma_degree_sum_insert(g0, o0, u, ns);
                }
            },
            None => {
                let i = self.order.len();
                self.order.push(u);
                self.lists.push(vec![v]);
                self.index.insert(u, i);
                proof {
                    assert(!g0.contains_key(u));
                    assert(self.lists@[i as int]@ =~= ns);
                    assert forall|k: u32| #[trigger] self.index@.contains_key(k) && k != u implies
                        self.lists@[self.index@[k] as int]@ == g0[k] by {
                        assert(old(self).index@.contains_key(k));
                    }
                    assert(self@ =~= g0.insert(u, ns));
                    assert(!o0.contains(u));
                    assert(self.order@.drop_last() =~= o0);
                    lemma_degree_sum_insert(g0, o0, u, ns);
                    assert forall|k: u32| #[trigger] self@.contains_key(k) <==> self.order().contains(k) by {
                        if self.order().contains(k) && k != u {
                            let j = choose|j: int| 0 <= j < self.order@.len() && self.order@[j] == k;
                            assert(o0[j] == k);
                        }
                        if self@.contains_key(k) {
                            if k == u {
                                assert(self.order@[i as int] == u);
                            } else {
                                assert(g0.contains_key(k));
                                assert(o0.contains(k));
                                let j = choose|j: int| 0 <= j < o0.len() && o0[j] == k;
                                assert(self.order@[j] == k);
                            }
                        }
                    }
                }
            },
        }
        self.total = self.total + 1;
    }

    /// Sets the neighbour sequence of `node` to `list`, replacing any earlier one.
    pub fn insert(&mut self, node: u32, list: Vec<u32>)
        requires
            old(self).wf(),
            old(self).total_degree() - neighbors(old(self)@, node).len() + list@.len() <= usize::MAX,
        ensures
            final(self).wf(),
            final(self)@ == old(self)@.insert(node, list@),
            final(self).total_degree() == old(self).total_degree() - neighbors(old(self)@, node).len()
                + list@.len(),
            final(self).order() == order_with(old(self).order(), old(self)@, node),
    {
        let ghost g0 = self@;
        let ghost o0 = self.order@;
        let ghost lv = list@;
        let n = list.len();
        match self.index.get(&node) {
            Some(i) => {
                let i = *i;
                proof {
                    lemma_degree_sum_insert(g0, o0, node, Seq::empty());
                    assert(o0[i as int] == node);
                }
                self.total = self.total - self.lists[i].len() + n;
                self.lists[i] = list;
                proof {
                    assert(self.lists@[i as int]@ == lv);
                    assert forall|k: u32| #[trigger] self.index@.contains_key(k) && k != node implies
                        self.lists@[self.index@[k] as int]@ == g0[k] by {
                        assert(self.order@[self.index@[k] as int] == k);
                    }
                    assert(self@ =~= g0.insert(node, lv));
                    lemma_degree_sum_insert(g0, o0, node, lv);
                    assert(self.order@ == o0);
                    assert(self.total as nat == self.total_degree());
                    assert(self.inv());
                }
            },
            None => {
                let i = self.order.len();
                self.order.push(node);
                self.lists.push(list);
                self.index.insert(node, i);
                self.total = self.total + n;
                proof {
                    assert(self.lists@[i as int]@ == lv);
                    assert(!g0.contains_key(node));
                    assert forall|k: u32| #[trigger] self.index@.contains_key(k) && k != node implies
                        self.lists@[self.index@[k] as int]@ == g0[k] by {
                        assert(old(self).index@.contains_key(k));
                    }
                    assert(self@ =~= g0.insert(node, lv));
                    assert(!o0.contains(node));
                    assert(self.order@.drop_last() =~= o0);
                    lemma_degree_sum_insert(g0, o0, node, lv);
                    assert(degree_sum(self@, self.order@) == degree_sum(self@, o0) + lv.len());
                    assert(self.total as nat == self.total_degree());
                    assert forall|k: u32| #[trigger] self@.contains_key(k) <==> self.order().contains(k) by {
                        if self.order().contains(k) && k != node {
                            let j = choose|j: int| 0 <= j < self.order@.len() && self.order@[j] == k;
                            assert(o0[j] == k);
                        }
                        if self@.contains_key(k) {
                            if k == node {
                                assert(self.order@[i as int] == node);
                            } else {
                                assert(g0.contains_key(k));
                                assert(o0.contains(k));
                                let j = choose|j: int| 0 <= j < o0.len() && o0[j] == k;
                                assert(self.order@[j] == k);
                            }
                        }
                    }
                }
            },
        }
        proof {
            assert(self.inv());
            assert(self.wf());
        }
    }

    /// Records the undirected edge `u`–`v`: `v` is appended to the neighbours
    /// of `u` and `u` to those of `v`, unconditionally.
    pub fn add_edge(&mut self, u: u32, v: u32)
        requires
            old(self).wf(),
            old(self).total_degree() + 2 <= usize::MAX,
        ensures
            final(self).wf(),
            final(self)@ == with_edge(old(self)@, u, v),
            final(self).total_degree() == old(self).total_degree() + 2,
            final(self).order() == order_with(
                order_with(old(self).order(), old(self)@, u),
                old(self)@.insert(u, neighbors(old(self)@, u).push(v)),
                v,
            ),
    {
        self.push_neighbor(u, v);
        self.push_neighbor(v, u);
    }
}

/// Builds the graph by recording each edge of `edges` in order.
pub fn from_edges(edges: &Vec<(u32, u32)>) -> (r: AdjacencyList)
    requires
        2 * edges@.len() <= usize::MAX,
    ensures
        r.wf(),
        r@ == built_from(edges@),
        r.total_degree() == 2 * edges@.len(),
{
    let mut g = AdjacencyList::new();
    let mut i: usize = 0;
    while i < edges.len()
        invariant
            i <= edges.len(),
            2 * edges@.len() <= usize::MAX,
            g.wf(),
            g@ == built_from(edges@.subrange(0, i as int)),
            g.total_degree() == 2 * i,
        decreases edges.len() - i,
    {
        let (u, v) = edges[i];
        g.add_edge(u, v);
        assert(edges@.subrange(0, i + 1).drop_last() =~= edges@.subrange(0, i as int));
        i = i + 1;
    }
    assert(edges@.subrange(0, i as int) =~= edges@);
    g
}

/// Number of edges: half the sum of all neighbour-sequence lengths.
pub fn count_edges(graph: &AdjacencyList) -> (r: usize)
    requires
        graph.wf(),
    ensures
        r == graph.total_degree() / 2,
{
    graph.total / 2
}

/// The degree (neighbour-sequence length) of every node present.
pub fn calculate_degrees(graph: &AdjacencyList) -> (r: HashMap<u32, usize>)
    requires
        graph.wf(),
    ensures
        forall|k: u32| #[trigger] r@.contains_key(k) <==> graph@.contains_key(k),
        forall|k: u32| graph@.contains_key(k) ==> r@[k] == #[trigger] graph@[k].len(),
{
    let mut r: HashMap<u32, usize> = HashMap::new();
    let mut i: usize = 0;
    while i < graph.order.len()
        invariant
            graph.wf(),
            i <= graph.order.len(),
            forall|k: u32| #[trigger]
                r@.contains_key(k) <==> graph.order@.subrange(0, i as int).contains(k),
            forall|k: u32| #[trigger] r@.contains_key(k) ==> r@[k] == graph@[k].len(),
        decreases graph.order.len() - i,
    {
        let node = graph.order[i];
        r.insert(node, graph.lists[i].len());
        proof {
            assert forall|k: u32| #[trigger]
                r@.contains_key(k) <==> graph.order@.subrange(0, i + 1).contains(k) by {
                let s0 = graph.order@.subrange(0, i as int);
                let s1 = graph.order@.subrange(0, i + 1);
                if s1.contains(k) && k != node {
                    let j = choose|j: int| 0 <= j < s1.len() && s1[j] == k;
                    assert(s0[j] == k);
                }
                if s0.contains(k) {
                    let j = choose|j: int| 0 <= j < s0.len() && s0[j] == k;
                    assert(s1[j] == k);
                }
                if k == node {
                    assert(s1[i as int] == k);
                }
            }
        }
        i = i + 1;
    }
    proof {
        assert(graph.order@.subrange(0, i as int) =~= graph.order@);
        assert forall|k: u32| graph@.contains_key(k) implies r@[k] == #[trigger] graph@[k].len() by {
            assert(r@.contains_key(k));
        }
    }
    r
}

/// The node of largest degree, ties going to the smallest id; `None` for an
/// empty graph.
pub fn find_highest_degree_node(graph: &AdjacencyList) -> (r: Option<(u32, usize)>)
    requires
        graph.wf(),
    ensures
        r is None <==> graph@.dom().is_empty(),
        r matches Some((n, d)) ==> {
            &&& graph@.contains_key(n)
            &&& d == graph@[n].len()
            &&& forall|k: u32| #[trigger]
                graph@.contains_key(k) ==> graph@[k].len() < d || (graph@[k].len() == d && n <= k)
        },
{
    let mut best: Option<(u32, usize)> = None;
    let mut i: usize = 0;
    while i < graph.order.len()
        invariant
            graph.wf(),
            i <= graph.order.len(),
            best is None <==> i == 0,
            best matches Some((n, d)) ==> {
                &&& graph@.contains_key(n)
                &&& d == graph@[n].len()
                &&& forall|j: int| 0 <= j < i ==> {
                    let k = #[trigger] graph.order@[j];
                    graph@[k].len() < d || (graph@[k].len() == d && n <= k)
                }
            },
        decreases graph.order.len() - i,
    {
        let node = graph.order[i];
        let deg = graph.lists[i].len();
        proof {
            assert(graph@.contains_key(node));
        }
        match best {
            None => {
                best = Some((node, deg));
            },
            Some((n, d)) => {
                if deg > d || (deg == d && node < n) {
                    best = Some((node, deg));
                }
            },
        }
        i = i + 1;
    }
    proof {
        if graph.order.len() == 0 {
            assert(graph@.dom() =~= Set::empty()) by {
                assert forall|k: u32| !graph@.contains_key(k) by {
                    if graph@.contains_key(k) {
                        assert(graph.order@.contains(k));
                    }
                }
            }
        } else {
            assert(graph@.contains_key(graph.order@[0]));
        }
        if let Some((n, d)) = best {
            assert forall|k: u32| #[trigger] graph@.contains_key(k) implies
                graph@[k].len() < d || (graph@[k].len() == d && n <= k) by {
                assert(graph.order@.contains(k));
                let j = choose|j: int| 0 <= j < graph.order@.len() && graph.order@[j] == k;
            }
        }
    }
    best
}

/// Membership in the neighbours of `x` after recording `u`–`v`.
proof fn lemma_with_edge_contains(g: Map<u32, Seq<u32>>, u: u32, v: u32, x: u32, y: u32)
    ensures
        neighbors(with_edge(g, u, v), x).contains(y) <==> neighbors(g, x).contains(y) || (x == u
            && y == v) || (x == v && y == u),
{
    let g1 = g.insert(u, neighbors(g, u).push(v));
    let g2 = g1.insert(v, neighbors(g1, v).push(u));
    assert(neighbors(g1, x) == if x == u { neighbors(g, u).push(v) } else { neighbors(g, x) });
    assert(neighbors(g2, x) == if x == v { neighbors(g1, v).push(u) } else { neighbors(g1, x) });
    assert forall|s: Seq<u32>, a: u32, b: u32| #[trigger] s.push(a).contains(b) <==> s.contains(b) || a == b by {
        if s.push(a).contains(b) && b != a {
            let j = choose|j: int| 0 <= j < s.push(a).len() && s.push(a)[j] == b;
            assert(s[j] == b);
        }
        if s.contains(b) {
            let j = choose|j: int| 0 <= j < s.len() && s[j] == b;
            assert(s.push(a)[j] == b);
        }
        if a == b {
            assert(s.push(a)[s.len() as int] == b);
        }
    }
}

/// Recording edges keeps the graph symmetric: in a graph built from any edge
/// sequence, `v` is a neighbour of `u` exactly when `u` is a neighbour of `v`.
pub proof fn lemma_built_symmetric(es: Seq<(u32, u32)>)
    ensures
        symmetric(built_from(es)),
    decreases es.len(),
{
    if es.len() > 0 {
        let g = built_from(es.drop_last());
        let (u, v) = es.last();
        lemma_built_symmetric(es.drop_last());
        assert forall|x: u32, y: u32|
            #[trigger] neighbors(with_edge(g, u, v), x).contains(y) <==> #[trigger] neighbors(
                with_edge(g, u, v),
                y,
            ).contains(x) by {
            lemma_with_edge_contains(g, u, v, x, y);
            lemma_with_edge_contains(g, u, v, y, x);
        }
    }
}

proof fn lemma_degree_sum_empty(ks: Seq<u32>)
    ensures
        degree_sum(Map::empty(), ks) == 0,
    decreases ks.len(),
{
    if ks.len() > 0 {
        lemma_degree_sum_empty(ks.drop_last());
    }
}

/// Half the degree sum of a graph built from `es`, taken over any
/// duplicate-free listing of its nodes, is the number of edges recorded.
pub proof fn lemma_edge_count(es: Seq<(u32, u32)>, ks: Seq<u32>)
    requires
        ks.no_duplicates(),
        forall|k: u32| #[trigger] built_from(es).contains_key(k) ==> ks.contains(k),
    ensures
        degree_sum(built_from(es), ks) == 2 * es.len(),
        degree_sum(built_from(es), ks) / 2 == es.len(),
    decreases es.len(),
{
    if es.len() == 0 {
        lemma_degree_sum_empty(ks);
    } else {
        let g = built_from(es.drop_last());
        let (u, v) = es.last();
        let g1 = g.insert(u, neighbors(g, u).push(v));
        assert(built_from(es) == with_edge(g, u, v));
        assert forall|k: u32| #[trigger] g.contains_key(k) implies ks.contains(k) by {
            assert(built_from(es).contains_key(k));
        }
        lemma_edge_count(es.drop_last(), ks);
        assert(built_from(es).contains_key(u) && built_from(es).contains_key(v));
        lemma_degree_sum_insert(g, ks, u, neighbors(g, u).push(v));
        lemma_degree_sum_insert(g1, ks, v, neighbors(g1, v).push(u));
    }
}

/// A graph built from `es`, as held by `g`, has exactly `es.len()` edges by
/// `count_edges`.
pub proof fn lemma_count_edges_built(g: AdjacencyList, es: Seq<(u32, u32)>)
    requires
        g.wf(),
        g@ == built_from(es),
    ensures
        g.total_degree() / 2 == es.len(),
{
    lemma_edge_count(es, g.order());
}

/// Nodes two hops from `u`, other than `u` and its direct neighbours.
pub open spec fn distance_two(g: Map<u32, Seq<u32>>, u: u32) -> Set<u32> {
    Set::new(
        |w: u32|
            exists|x: u32| #[trigger]
                neighbors(g, u).contains(x) && neighbors(g, x).contains(w) && w != u
                    && !neighbors(g, u).contains(w),
    )
}

/// Whether `x` occurs in `s`.
pub fn list_contains(s: &Vec<u32>, x: u32) -> (r: bool)
    ensures
        r == s@.contains(x),
{
    let mut i: usize = 0;
    while i < s.len()
        invariant
            i <= s.len(),
            forall|j: int| 0 <= j < i ==> s@[j] != x,
        decreases s.len() - i,
    {
        if s[i] == x {
            return true;
        }
        i = i + 1;
    }
    false
}

/// Number of distinct nodes two hops from `node`, excluding `node` itself and
/// its direct neighbours.
pub fn degree_distance_2(graph: &AdjacencyList, node: u32) -> (r: usize)
    requires
        graph.wf(),
    ensures
        r == distance_two(graph@, node).len(),
{
    let mut found: HashSet<u32> = HashSet::new();
    let ghost g = graph@;
    match graph.get(node) {
        None => {
            proof {
                assert(found@ =~= distance_two(g, node));
            }
        },
        Some(nbrs) => {
            let mut a: usize = 0;
            while a < nbrs.len()
                invariant
                    g == graph@,
                    graph.wf(),
                    nbrs@ == neighbors(g, node),
                    a <= nbrs.len(),
                    forall|w: u32| #[trigger] found@.contains(w) ==> distance_two(g, node).contains(w),
                    forall|j: int, w: u32|
                        0 <= j < a && #[trigger] neighbors(g, nbrs@[j]).contains(w) && w != node
                            && !nbrs@.contains(w) ==> #[trigger] found@.contains(w),
                decreases nbrs.len() - a,
            {
                let x = nbrs[a];
                proof {
                    assert(nbrs@.contains(x));
                }
                if let Some(second) = graph.get(x) {
                    let mut b: usize = 0;
                    while b < second.len()
                        invariant
                            g == graph@,
                            nbrs@ == neighbors(g, node),
                            second@ == neighbors(g, x),
                            nbrs@.contains(x),
                            b <= second.len(),
                            a < nbrs.len(),
                            x == nbrs@[a as int],
                            forall|w: u32| #[trigger] found@.contains(w) ==> distance_two(g, node).contains(w),
                            forall|j: int, w: u32|
                                0 <= j < a && #[trigger] neighbors(g, nbrs@[j]).contains(w) && w
                                    != node && !nbrs@.contains(w) ==> #[trigger] found@.contains(w),
                            forall|i: int|
                                0 <= i < b && second@[i] != node && !nbrs@.contains(second@[i])
                                    ==> found@.contains(#[trigger] second@[i]),
                        decreases second.len() - b,
                    {
                        let w = second[b];
                        if w != node && !list_contains(nbrs, w) {
                            proof {
                                assert(second@[b as int] == w);
                                assert(neighbors(g, node).contains(x) && neighbors(g, x).contains(w));
                                assert(!neighbors(g, node).contains(w));
                                assert(neighbors(g, node).contains(x) && neighbors(g, x).contains(w)
                                    && w != node && !neighbors(g, node).contains(w));
                                assert(distance_two(g, node).contains(w));
                            }
                            found.insert(w);
                        }
                        b = b + 1;
                    }
                    proof {
                        assert forall|j: int, w: u32|
                            0 <= j < a + 1 && #[trigger] neighbors(g, nbrs@[j]).contains(w) && w
                                != node && !nbrs@.contains(w) implies #[trigger] found@.contains(w) by {
                            if j == a {
                                let i = choose|i: int| 0 <= i < second@.len() && second@[i] == w;
                            }
                        }
                    }
                } else {
                    proof {
                        assert(neighbors(g, x).len() == 0);
                    }
                }
                a = a + 1;
            }
            proof {
                assert forall|w: u32| #[trigger] distance_two(g, node).contains(w) implies found@.contains(w) by {
                    let x = choose|x: u32| #[trigger]
                        neighbors(g, node).contains(x) && neighbors(g, x).contains(w) && w != node
                            && !neighbors(g, node).contains(w);
                    let j = choose|j: int| 0 <= j < nbrs@.len() && nbrs@[j] == x;
                }
                assert(found@ =~= distance_two(g, node));
            }
        },
    }
    found.len()
}

/// Smallest and largest degree over all nodes; `None` for an empty graph.
pub fn degree_range(graph: &AdjacencyList) -> (r: Option<(usize, usize)>)
    requires
        graph.wf(),
    ensures
        r is None <==> graph@.dom().is_empty(),
        r matches Some((lo, hi)) ==> {
            &&& exists|k: u32| #[trigger] graph@.contains_key(k) && graph@[k].len() == lo
            &&& exists|k: u32| #[trigger] graph@.contains_key(k) && graph@[k].len() == hi
            &&& forall|k: u32| #[trigger] graph@.contains_key(k) ==> lo <= graph@[k].len() <= hi
        },
{
    let mut r: Option<(usize, usize)> = None;
    let mut i: usize = 0;
    while i < graph.order.len()
        invariant
            graph.wf(),
            i <= graph.order.len(),
            r is None <==> i == 0,
            r matches Some((lo, hi)) ==> {
                &&& exists|k: u32| #[trigger] graph@.contains_key(k) && graph@[k].len() == lo
                &&& exists|k: u32| #[trigger] graph@.contains_key(k) && graph@[k].len() == hi
                &&& forall|j: int| 0 <= j < i ==> lo <= #[trigger] graph@[graph.order@[j]].len() <= hi
            },
        decreases graph.order.len() - i,
    {
        let node = graph.order[i];
        let deg = graph.lists[i].len();
        proof {
            assert(graph@.contains_key(node));
        }
        r = match r {
            None => Some((deg, deg)),
            Some((lo, hi)) => Some((if deg < lo { deg } else { lo }, if deg > hi { deg } else { hi })),
        };
        i = i + 1;
    }
    proof {
        if graph.order.len() == 0 {
            assert(graph@.dom() =~= Set::empty()) by {
                assert forall|k: u32| !graph@.contains_key(k) by {
                    if graph@.contains_key(k) {
                        assert(graph.order@.contains(k));
                    }
                }
            }
        } else {
            assert(graph@.contains_key(graph.order@[0]));
        }
        if let Some((lo, hi)) = r {
            assert forall|k: u32| #[trigger] graph@.contains_key(k) implies lo <= graph@[k].len() <= hi by {
                assert(graph.order@.contains(k));
                let j = choose|j: int| 0 <= j < graph.order@.len() && graph.order@[j] == k;
            }
        }
    }
    r
}

} // verus!
