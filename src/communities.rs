//! Community assignment from member lines, and community size summaries.
use std::collections::{HashMap, HashSet};
use vstd::prelude::*;
use crate::graph::lemma_u32_set_bound;
use vstd::set_lib::lemma_len_subset;

verus! {

broadcast use vstd::std_specs::hash::group_hash_axioms;

/// `x` is listed on some line of `ls`.
pub open spec fn listed(ls: Seq<Vec<u32>>, x: u32) -> bool {
    exists|i: int| 0 <= i < ls.len() && #[trigger] ls[i]@.contains(x)
}

/// Line `c` is the last line of `ls` that lists `x`: the community that `x`
/// ends up in.
pub open spec fn assigned(ls: Seq<Vec<u32>>, x: u32, c: int) -> bool {
    &&& 0 <= c < ls.len()
    &&& ls[c]@.contains(x)
    &&& forall|j: int| c < j < ls.len() ==> !(#[trigger] ls[j]@.contains(x))
}

/// Members of community `c`.
pub open spec fn members(ls: Seq<Vec<u32>>, c: int) -> Set<u32> {
    Set::new(|x: u32| assigned(ls, x, c))
}

/// All nodes that some line lists.
pub open spec fn mapped_nodes(ls: Seq<Vec<u32>>) -> Set<u32> {
    Set::new(|x: u32| listed(ls, x))
}

/// Sum of a sequence of counts.
pub open spec fn total(s: Seq<u64>) -> int
    decreases s.len(),
{
    if s.len() == 0 {
        0
    } else {
        total(s.drop_last()) + s.last()
    }
}

proof fn lemma_total_update(s: Seq<u64>, i: int, v: u64)
    requires
        0 <= i < s.len(),
    ensures
        total(s.update(i, v)) == total(s) - s[i] + v,
    decreases s.len(),
{
    if i < s.len() - 1 {
        lemma_total_update(s.drop_last(), i, v);
        assert(s.update(i, v).drop_last() =~= s.drop_last().update(i, v));
    } else {
        assert(s.update(i, v).drop_last() =~= s.drop_last());
    }
}

proof fn lemma_total_zeros(n: nat)
    ensures
        total(Seq::new(n, |k: int| 0u64)) == 0,
    decreases n,
{
    if n > 0 {
        assert(Seq::new(n, |k: int| 0u64).drop_last() =~= Seq::new((n - 1) as nat, |k: int| 0u64));
        lemma_total_zeros((n - 1) as nat);
    }
}

/// Maps each listed node to the index of the last line that lists it: the
/// lines are communities numbered from 0, and a later line overrides an
/// earlier one.
pub fn assign_communities(lines: &Vec<Vec<u32>>) -> (r: HashMap<u32, u32>)
    requires
        lines.len() <= 0x1_0000_0000,
    ensures
        forall|x: u32| #[trigger] r@.contains_key(x) <==> listed(lines@, x),
        forall|x: u32| #[trigger] r@.contains_key(x) ==> assigned(lines@, x, r@[x] as int),
{
    let mut r: HashMap<u32, u32> = HashMap::new();
    let mut i: usize = 0;
    while i < lines.len()
        invariant
            i <= lines.len(),
            lines.len() <= 0x1_0000_0000,
            forall|x: u32| #[trigger] r@.contains_key(x) <==> listed(lines@.subrange(0, i as int), x),
            forall|x: u32| #[trigger] r@.contains_key(x) ==> assigned(lines@.subrange(0, i as int), x, r@[x] as int),
        decreases lines.len() - i,
    {
        let line = &lines[i];
        let ghost pre = lines@.subrange(0, i as int);
        let ghost nxt = lines@.subrange(0, i + 1);
        let mut j: usize = 0;
        while j < line.len()
            invariant
                i < lines.len(),
                lines.len() <= 0x1_0000_0000,
                line == &lines@[i as int],
                pre == lines@.subrange(0, i as int),
                j <= line.len(),
                forall|x: u32| #[trigger] r@.contains_key(x) <==> listed(pre, x) || line@.subrange(0, j as int).contains(x),
                forall|x: u32| #[trigger] r@.contains_key(x) ==> if line@.subrange(0, j as int).contains(x) {
                    r@[x] == i
                } else {
                    assigned(pre, x, r@[x] as int)
                },
            decreases line.len() - j,
        {
            let x = line[j];
            r.insert(x, i as u32);
            proof {
                let s0 = line@.subrange(0, j as int);
                let s1 = line@.subrange(0, j + 1);
                assert forall|z: u32| s1.contains(z) <==> s0.contains(z) || z == x by {
                    if s1.contains(z) && z != x {
                        let k = choose|k: int| 0 <= k < s1.len() && s1[k] == z;
                        assert(s0[k] == z);
                    }
                    if s0.contains(z) {
                        let k = choose|k: int| 0 <= k < s0.len() && s0[k] == z;
                        assert(s1[k] == z);
                    }
                    if z == x {
                        assert(s1[j as int] == z);
                    }
                }
            }
            j = j + 1;
        }
        proof {
            assert(line@.subrange(0, j as int) =~= line@);
            assert forall|x: u32| #[trigger] r@.contains_key(x) <==> listed(nxt, x) by {
                if listed(nxt, x) {
                    let k = choose|k: int| 0 <= k < nxt.len() && #[trigger] nxt[k]@.contains(x);
                    if k < i {
                        assert(pre[k]@.contains(x));
                    }
                }
                if listed(pre, x) {
                    let k = choose|k: int| 0 <= k < pre.len() && #[trigger] pre[k]@.contains(x);
                    assert(nxt[k]@.contains(x));
                }
                if line@.contains(x) {
                    assert(nxt[i as int]@.contains(x));
                }
            }
            assert forall|x: u32| #[trigger] r@.contains_key(x) implies assigned(nxt, x, r@[x] as int) by {
                if !line@.contains(x) {
                    let c = r@[x] as int;
                    assert(pre[c]@.contains(x));
                    assert(nxt[c]@.contains(x));
                    assert forall|k: int| c < k < nxt.len() implies !(#[trigger] nxt[k]@.contains(x)) by {
                        if k < i {
                            assert(!pre[k]@.contains(x));
                        }
                    }
                }
            }
        }
        i = i + 1;
    }
    proof {
        assert(lines@.subrange(0, i as int) =~= lines@);
    }
    r
}

/// The nodes of `seen` that `a` places in community `c`.
spec fn seen_in(seen: Set<u32>, a: Map<u32, u32>, c: int) -> Set<u32> {
    Set::new(|x: u32| seen.contains(x) && a[x] as int == c)
}

/// Number of members of each community, indexed by community: every listed
/// node counts once, in the community it ends up in.
pub fn community_sizes(lines: &Vec<Vec<u32>>) -> (r: Vec<u64>)
    requires
        lines.len() <= 0x1_0000_0000,
    ensures
        r.len() == lines.len(),
        forall|c: int| 0 <= c < r.len() ==> r@[c] == #[trigger] members(lines@, c).len(),
        total(r@) == mapped_nodes(lines@).len(),
{
    let assignment = assign_communities(lines);
    let ghost a = assignment@;
    let ghost n = lines.len();
    let mut sizes: Vec<u64> = Vec::new();
    let mut k: usize = 0;
    while k < lines.len()
        invariant
            k <= lines.len(),
            sizes@ == Seq::new(k as nat, |q: int| 0u64),
        decreases lines.len() - k,
    {
        sizes.push(0);
        assert(sizes@ =~= Seq::new((k + 1) as nat, |q: int| 0u64));
        k = k + 1;
    }
    let mut counted: HashSet<u32> = HashSet::new();
    proof {
        lemma_total_zeros(n as nat);
        assert forall|c: int| 0 <= c < n implies sizes@[c] == #[trigger] seen_in(counted@, a, c).len() by {
            assert(seen_in(counted@, a, c) =~= Set::empty());
        }
    }
    let mut i: usize = 0;
    while i < lines.len()
        invariant
            i <= lines.len(),
            n == lines.len(),
            a == assignment@,
            forall|x: u32| #[trigger] a.contains_key(x) <==> listed(lines@, x),
            forall|x: u32| #[trigger] a.contains_key(x) ==> assigned(lines@, x, a[x] as int),
            sizes.len() == n,
            counted@.finite(),
            forall|x: u32| #[trigger] counted@.contains(x) <==> a.contains_key(x) && (a[x] as int) < i,
            forall|c: int| 0 <= c < n ==> sizes@[c] == #[trigger] seen_in(counted@, a, c).len(),
            total(sizes@) == counted@.len(),
        decreases lines.len() - i,
    {
        let line = &lines[i];
        let mut j: usize = 0;
        while j < line.len()
            invariant
                i < lines.len(),
                n == lines.len(),
                line == &lines@[i as int],
                j <= line.len(),
                a == assignment@,
                forall|x: u32| #[trigger] a.contains_key(x) <==> listed(lines@, x),
                forall|x: u32| #[trigger] a.contains_key(x) ==> assigned(lines@, x, a[x] as int),
                sizes.len() == n,
                counted@.finite(),
                forall|x: u32| #[trigger] counted@.contains(x) <==> a.contains_key(x) && ((a[x] as int) < i
                    || (a[x] as int == i && line@.subrange(0, j as int).contains(x))),
                forall|c: int| 0 <= c < n ==> sizes@[c] == #[trigger] seen_in(counted@, a, c).len(),
                total(sizes@) == counted@.len(),
            decreases line.len() - j,
        {
            let x = line[j];
            proof {
                assert(lines@[i as int]@.contains(x)) by {
                    assert(line@[j as int] == x);
                }
                assert(listed(lines@, x));
            }
            let c = *assignment.get(&x).unwrap();
            let ghost c0 = counted@;
            let ghost z0 = sizes@;
            let ghost s0 = line@.subrange(0, j as int);
            let ghost s1 = line@.subrange(0, j + 1);
            proof {
                assert forall|z: u32| s1.contains(z) <==> s0.contains(z) || z == x by {
                    if s1.contains(z) && z != x {
                        let q = choose|q: int| 0 <= q < s1.len() && s1[q] == z;
                        assert(s0[q] == z);
                    }
                    if s0.contains(z) {
                        let q = choose|q: int| 0 <= q < s0.len() && s0[q] == z;
                        assert(s1[q] == z);
                    }
                    if z == x {
                        assert(s1[j as int] == z);
                    }
                }
            }
            if c as usize == i && !counted.contains(&x) {
                proof {
                    lemma_len_subset(seen_in(c0, a, i as int), c0);
                    lemma_u32_set_bound(c0);
                }
                counted.insert(x);
                sizes.set(i, sizes[i] + 1);
                proof {
                    lemma_total_update(z0, i as int, (z0[i as int] + 1) as u64);
                    assert forall|q: int| 0 <= q < n implies sizes@[q] == #[trigger] seen_in(counted@, a, q).len() by {
                        if q == i {
                            assert(seen_in(counted@, a, q) =~= seen_in(c0, a, q).insert(x));
                        } else {
                            assert(seen_in(counted@, a, q) =~= seen_in(c0, a, q));
                        }
                    }
                }
            }
            j = j + 1;
        }
        proof {
            assert(line@.subrange(0, j as int) =~= line@);
            assert forall|x: u32| #[trigger] counted@.contains(x) <==> a.contains_key(x) && (a[x] as int) < i + 1 by {
                if a.contains_key(x) && a[x] as int == i {
                    assert(lines@[i as int]@.contains(x));
                }
            }
        }
        i = i + 1;
    }
    proof {
        assert(counted@ =~= mapped_nodes(lines@));
        assert forall|c: int| 0 <= c < sizes.len() implies sizes@[c] == #[trigger] members(lines@, c).len() by {
            assert forall|x: u32| #[trigger] members(lines@, c).contains(x) <==> seen_in(counted@, a, c).contains(x) by {
                if assigned(lines@, x, c) {
                    assert(listed(lines@, x)) by {
                        assert(lines@[c]@.contains(x));
                    }
                    assert(a.contains_key(x));
                    let d = a[x] as int;
                    assert(assigned(lines@, x, d));
                    if d < c {
                        assert(!lines@[c]@.contains(x));
                    }
                    if d > c {
                        assert(!lines@[d]@.contains(x));
                    }
                }
            }
            assert(members(lines@, c) =~= seen_in(counted@, a, c));
        }
    }
    sizes
}

/// Smallest community size that the ranking keeps.
pub const MIN_COMMUNITY_SIZE: u64 = 3;

/// `a` ranks before `b`: larger first, then the smaller community id.
pub open spec fn ranks_before(a: (u32, u64), b: (u32, u64)) -> bool {
    a.1 > b.1 || (a.1 == b.1 && a.0 < b.0)
}

/// The communities with at least three members, as `(id, size)`, largest
/// first and equal sizes by ascending id.
pub fn large_communities(sizes: &Vec<u64>) -> (r: Vec<(u32, u64)>)
    requires
        sizes.len() <= 0x1_0000_0000,
    ensures
        forall|k: int| 0 <= k < r.len() ==> {
            &&& (#[trigger] r@[k]).0 < sizes.len()
            &&& r@[k].1 == sizes@[r@[k].0 as int]
            &&& r@[k].1 >= MIN_COMMUNITY_SIZE
        },
        forall|c: int|
            0 <= c < sizes.len() && #[trigger] sizes@[c] >= MIN_COMMUNITY_SIZE ==> exists|k: int|
                0 <= k < r.len() && r@[k].0 == c,
        forall|i: int, j: int| 0 <= i < j < r.len() ==> ranks_before(#[trigger] r@[i], #[trigger] r@[j]),
{
    let mut r: Vec<(u32, u64)> = Vec::new();
    let mut c: usize = 0;
    while c < sizes.len()
        invariant
            c <= sizes.len(),
            sizes.len() <= 0x1_0000_0000,
            forall|k: int| 0 <= k < r.len() ==> {
                &&& (#[trigger] r@[k]).0 < c
                &&& r@[k].1 == sizes@[r@[k].0 as int]
                &&& r@[k].1 >= MIN_COMMUNITY_SIZE
            },
            forall|d: int|
                0 <= d < c && #[trigger] sizes@[d] >= MIN_COMMUNITY_SIZE ==> exists|k: int|
                    0 <= k < r.len() && r@[k].0 == d,
            forall|i: int, j: int| 0 <= i < j < r.len() ==> ranks_before(#[trigger] r@[i], #[trigger] r@[j]),
        decreases sizes.len() - c,
    {
        let s = sizes[c];
        if s >= MIN_COMMUNITY_SIZE {
            let mut p: usize = 0;
            while p < r.len() && r[p].1 >= s
                invariant
                    p <= r.len(),
                    forall|q: int| 0 <= q < p ==> (#[trigger] r@[q]).1 >= s,
                decreases r.len() - p,
            {
                p = p + 1;
            }
            let ghost r0 = r@;
            let e = (c as u32, s);
            proof {
                assert forall|q: int| p <= q < r0.len() implies (#[trigger] r0[q]).1 < s by {
                    if q > p {
                        assert(ranks_before(r0[p as int], r0[q]));
                    }
                }
            }
            r.insert(p, e);
            proof {
                assert forall|k: int| 0 <= k < r.len() implies {
                    &&& (#[trigger] r@[k]).0 < c + 1
                    &&& r@[k].1 == sizes@[r@[k].0 as int]
                    &&& r@[k].1 >= MIN_COMMUNITY_SIZE
                } by {
                    if k < p {
                        assert(r@[k] == r0[k]);
                    } else if k > p {
                        assert(r@[k] == r0[k - 1]);
                    }
                }
                assert forall|d: int|
                    0 <= d < c + 1 && #[trigger] sizes@[d] >= MIN_COMMUNITY_SIZE implies exists|k: int|
                        0 <= k < r.len() && r@[k].0 == d by {
                    if d < c {
                        let k = choose|k: int| 0 <= k < r0.len() && r0[k].0 == d;
                        if k < p {
                            assert(r@[k] == r0[k]);
                        } else {
                            assert(r@[k + 1] == r0[k]);
                        }
                    } else {
                        assert(r@[p as int].0 == d);
                    }
                }
                assert forall|i: int, j: int| 0 <= i < j < r.len() implies ranks_before(
                    #[trigger] r@[i],
                    #[trigger] r@[j],
                ) by {
                    if j < p {
                        assert(ranks_before(r0[i], r0[j]));
                    } else if i > p {
                        assert(ranks_before(r0[i - 1], r0[j - 1]));
                    } else if i < p && j > p {
                        assert(ranks_before(r0[i], r0[j - 1]));
                    } else if i == p {
                        assert(r0[j - 1].1 < s);
                    } else {
                        assert(r0[i].1 >= s && r0[i].0 < c);
                    }
                }
            }
        }
        c = c + 1;
    }
    r
}

/// Sum of the counts in `s` that are at least `m`.
pub open spec fn total_at_least(s: Seq<u64>, m: u64) -> int
    decreases s.len(),
{
    if s.len() == 0 {
        0
    } else {
        total_at_least(s.drop_last(), m) + if s.last() >= m {
            s.last() as int
        } else {
            0
        }
    }
}

/// Sum of the counts in `s` that are below `m`.
pub open spec fn total_below(s: Seq<u64>, m: u64) -> int
    decreases s.len(),
{
    if s.len() == 0 {
        0
    } else {
        total_below(s.drop_last(), m) + if s.last() < m {
            s.last() as int
        } else {
            0
        }
    }
}

proof fn lemma_total_split(s: Seq<u64>, m: u64)
    ensures
        total_at_least(s, m) + total_below(s, m) == total(s),
    decreases s.len(),
{
    if s.len() > 0 {
        lemma_total_split(s.drop_last(), m);
    }
}

/// Splitting communities by size loses no one: the members of the kept
/// communities (at least three) and of the dropped ones add up to the
/// number of mapped nodes.
pub proof fn lemma_community_split(lines: Seq<Vec<u32>>, sizes: Seq<u64>)
    requires
        total(sizes) == mapped_nodes(lines).len(),
    ensures
        total_at_least(sizes, MIN_COMMUNITY_SIZE) + total_below(sizes, MIN_COMMUNITY_SIZE)
            == mapped_nodes(lines).len(),
{
    lemma_total_split(sizes, MIN_COMMUNITY_SIZE);
}

} // verus!
