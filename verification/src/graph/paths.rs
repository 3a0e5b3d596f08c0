//! Paths and reachability over adjacency lists.
//!
//! A graph is modelled as `succ: Seq<Seq<usize>>`, where `succ[u]` lists the
//! successors of node `u` and the nodes are `0..succ.len()`.
use vstd::prelude::*;
use vstd::set_lib::*;

verus! {

/// There is an edge `u -> v`.
pub open spec fn edge(succ: Seq<Seq<usize>>, u: usize, v: usize) -> bool {
    &&& u < succ.len()
    &&& v < succ.len()
    &&& succ[u as int].contains(v)
}

/// Step `i` of `p` follows an edge.
pub open spec fn path_step(succ: Seq<Seq<usize>>, p: Seq<usize>, i: int) -> bool {
    edge(succ, p[i], p[i + 1])
}

/// `p` is a non-empty walk along edges of the graph.
pub open spec fn is_path(succ: Seq<Seq<usize>>, p: Seq<usize>) -> bool {
    &&& p.len() >= 1
    &&& forall|i: int| 0 <= i < p.len() ==> #[trigger] p[i] < succ.len()
    &&& forall|i: int| 0 <= i < p.len() - 1 ==> #[trigger] path_step(succ, p, i)
}

/// `v` can be reached from `u` by following zero or more edges.
pub open spec fn reaches(succ: Seq<Seq<usize>>, u: usize, v: usize) -> bool {
    exists|p: Seq<usize>| #[trigger] is_path(succ, p) && p[0] == u && p.last() == v
}

/// Every node of `p` occurs in `s`.
pub open spec fn within(p: Seq<usize>, s: Seq<usize>) -> bool {
    forall|k: int| 0 <= k < p.len() ==> s.contains(#[trigger] p[k])
}

/// The graph has a cycle: some edge `u -> v` with `v` reaching back to `u`.
pub open spec fn has_cycle(succ: Seq<Seq<usize>>) -> bool {
    exists|u: usize, v: usize| #[trigger] edge(succ, u, v) && reaches(succ, v, u)
}

pub proof fn lemma_reaches_refl(succ: Seq<Seq<usize>>, u: usize)
    requires
        u < succ.len(),
    ensures
        reaches(succ, u, u),
{
    let p = seq![u];
    assert(is_path(succ, p));
}

pub proof fn lemma_reaches_edge(succ: Seq<Seq<usize>>, u: usize, v: usize)
    requires
        edge(succ, u, v),
    ensures
        reaches(succ, u, v),
{
    let p = seq![u, v];
    assert(path_step(succ, p, 0));
    assert(is_path(succ, p));
}

pub proof fn lemma_path_concat(succ: Seq<Seq<usize>>, p: Seq<usize>, q: Seq<usize>)
    requires
        is_path(succ, p),
        is_path(succ, q),
        p.last() == q[0],
    ensures
        is_path(succ, p + q.drop_first()),
        (p + q.drop_first())[0] == p[0],
        (p + q.drop_first()).last() == q.last(),
{
    let r = p + q.drop_first();
    assert forall|i: int| 0 <= i < r.len() implies #[trigger] r[i] < succ.len() by {
        if i < p.len() {
            assert(r[i] == p[i]);
        } else {
            assert(r[i] == q[i - p.len() + 1]);
        }
    }
    assert forall|i: int| 0 <= i < r.len() - 1 implies #[trigger] path_step(succ, r, i) by {
        if i < p.len() - 1 {
            assert(path_step(succ, p, i));
        } else if i == p.len() - 1 {
            assert(path_step(succ, q, 0));
        } else {
            assert(path_step(succ, q, i - p.len() + 1));
        }
    }
}

pub proof fn lemma_reaches_trans(succ: Seq<Seq<usize>>, u: usize, v: usize, w: usize)
    requires
        reaches(succ, u, v),
        reaches(succ, v, w),
    ensures
        reaches(succ, u, w),
{
    let p = choose|p: Seq<usize>| #[trigger] is_path(succ, p) && p[0] == u && p.last() == v;
    let q = choose|q: Seq<usize>| #[trigger] is_path(succ, q) && q[0] == v && q.last() == w;
    lemma_path_concat(succ, p, q);
}

pub proof fn lemma_reaches_extend(succ: Seq<Seq<usize>>, u: usize, v: usize, w: usize)
    requires
        reaches(succ, u, v),
        edge(succ, v, w),
    ensures
        reaches(succ, u, w),
{
    lemma_reaches_edge(succ, v, w);
    lemma_reaches_trans(succ, u, v, w);
}

pub proof fn lemma_path_subrange(succ: Seq<Seq<usize>>, p: Seq<usize>, i: int, j: int)
    requires
        is_path(succ, p),
        0 <= i < j <= p.len(),
    ensures
        is_path(succ, p.subrange(i, j)),
{
    let r = p.subrange(i, j);
    assert forall|k: int| 0 <= k < r.len() implies #[trigger] r[k] < succ.len() by {
        assert(r[k] == p[i + k]);
    }
    assert forall|k: int| 0 <= k < r.len() - 1 implies #[trigger] path_step(succ, r, k) by {
        assert(path_step(succ, p, i + k));
    }
}

pub proof fn lemma_path_reaches(succ: Seq<Seq<usize>>, p: Seq<usize>, i: int, j: int)
    requires
        is_path(succ, p),
        0 <= i <= j < p.len(),
    ensures
        reaches(succ, p[i], p[j]),
{
    lemma_path_subrange(succ, p, i, j + 1);
    let r = p.subrange(i, j + 1);
    assert(r[0] == p[i] && r.last() == p[j]);
}

pub proof fn lemma_path_edge(succ: Seq<Seq<usize>>, p: Seq<usize>, i: int)
    requires
        is_path(succ, p),
        0 <= i < p.len() - 1,
    ensures
        edge(succ, p[i], p[i + 1]),
{
    assert(path_step(succ, p, i));
}

/// A walk that starts in a set closed under successors never leaves it.
pub proof fn lemma_path_stays_closed(succ: Seq<Seq<usize>>, p: Seq<usize>, s: Seq<usize>, k: int)
    requires
        is_path(succ, p),
        s.contains(p[0]),
        forall|a: usize, b: usize| #[trigger] edge(succ, a, b) && s.contains(a) ==> s.contains(b),
        0 <= k < p.len(),
    ensures
        s.contains(p[k]),
    decreases k,
{
    if k > 0 {
        lemma_path_stays_closed(succ, p, s, k - 1);
        lemma_path_edge(succ, p, k - 1);
    }
}

/// A walk that ends in a set closed under predecessors lies in it entirely.
pub proof fn lemma_path_back_closed(succ: Seq<Seq<usize>>, p: Seq<usize>, s: Set<usize>, k: int)
    requires
        is_path(succ, p),
        s.contains(p.last()),
        forall|a: usize, b: usize| #[trigger] edge(succ, a, b) && s.contains(b) ==> s.contains(a),
        0 <= k < p.len(),
    ensures
        s.contains(p[k]),
    decreases p.len() - k,
{
    if k < p.len() - 1 {
        lemma_path_back_closed(succ, p, s, k + 1);
        lemma_path_edge(succ, p, k);
    }
}

/// A sequence of distinct nodes below `n` has at most `n` entries.
pub proof fn lemma_distinct_bounded(s: Seq<usize>, n: usize)
    requires
        s.no_duplicates(),
        forall|k: int| 0 <= k < s.len() ==> #[trigger] s[k] < n,
    ensures
        s.len() <= n,
{
    s.unique_seq_to_set();
    <usize as FiniteRange>::range_properties(0, n);
    assert(s.to_set().subset_of(Set::range(0usize, n)));
    lemma_len_subset(s.to_set(), Set::range(0usize, n));
}

/// A sequence of `n` distinct nodes below `n` holds each of them.
pub proof fn lemma_distinct_covers(s: Seq<usize>, n: usize)
    requires
        s.no_duplicates(),
        s.len() == n,
        forall|k: int| 0 <= k < s.len() ==> #[trigger] s[k] < n,
    ensures
        forall|v: usize| v < n ==> #[trigger] s.contains(v),
{
    assert forall|v: usize| v < n implies #[trigger] s.contains(v) by {
        if !s.contains(v) {
            let s2 = s.push(v);
            assert forall|a: int, b: int| 0 <= a < s2.len() && 0 <= b < s2.len() && a != b implies s2[a]
                != s2[b] by {
                if a < s.len() && b < s.len() {
                } else if a < s.len() {
                    assert(s.contains(s[a]));
                } else if b < s.len() {
                    assert(s.contains(s[b]));
                }
            }
            assert forall|k: int| 0 <= k < s2.len() implies #[trigger] s2[k] < n by {
                if k < s.len() {
                    assert(s2[k] == s[k]);
                }
            }
            lemma_distinct_bounded(s2, n);
        }
    }
}

} // verus!

verus! {

/// `p` visits only nodes that `vis` leaves unmarked.
pub open spec fn avoids(p: Seq<usize>, vis: Seq<bool>) -> bool {
    forall|j: int| 0 <= j < p.len() ==> !vis[#[trigger] p[j] as int]
}

/// `v` can be reached from `u` through nodes that `vis` leaves unmarked.
pub open spec fn reaches_avoiding(succ: Seq<Seq<usize>>, vis: Seq<bool>, u: usize, v: usize) -> bool {
    exists|p: Seq<usize>|
        #[trigger] is_path(succ, p) && p[0] == u && p.last() == v && avoids(p, vis)
}

/// The views of a vector of node lists.
pub open spec fn seqs_of(v: Seq<Vec<usize>>) -> Seq<Seq<usize>> {
    v.map_values(|c: Vec<usize>| c@)
}

/// `v` occurs in one of the components `cs`.
pub open spec fn in_some_component(cs: Seq<Seq<usize>>, v: usize) -> bool {
    exists|c: int, k: int| 0 <= c < cs.len() && 0 <= k < cs[c].len() && #[trigger] cs[c][k] == v
}

/// `cs` lists the strongly connected components of the graph: every node
/// occurs in exactly one component, the members of a component reach each
/// other, and a component holds every node that reaches its members both
/// ways.
pub open spec fn is_scc_partition(succ: Seq<Seq<usize>>, cs: Seq<Seq<usize>>) -> bool {
    &&& forall|c: int| 0 <= c < cs.len() ==> #[trigger] cs[c].len() > 0
    &&& forall|c: int, k: int|
        0 <= c < cs.len() && 0 <= k < cs[c].len() ==> #[trigger] cs[c][k] < succ.len()
    &&& forall|c1: int, k1: int, c2: int, k2: int|
        0 <= c1 < cs.len() && 0 <= k1 < cs[c1].len() && 0 <= c2 < cs.len() && 0 <= k2
            < cs[c2].len() && #[trigger] cs[c1][k1] == #[trigger] cs[c2][k2] ==> c1 == c2 && k1
            == k2
    &&& forall|v: usize| v < succ.len() ==> #[trigger] in_some_component(cs, v)
    &&& forall|c: int, k1: int, k2: int|
        0 <= c < cs.len() && 0 <= k1 < cs[c].len() && 0 <= k2 < cs[c].len() ==> reaches(
            succ,
            #[trigger] cs[c][k1],
            #[trigger] cs[c][k2],
        )
    &&& forall|c: int, k: int, y: usize|
        0 <= c < cs.len() && 0 <= k < cs[c].len() && #[trigger] reaches(succ, cs[c][k], y)
            && reaches(succ, y, cs[c][k]) ==> cs[c].contains(y)
}

/// `cs` lists the strongly connected components of the graph, and an edge
/// never leads to an earlier component.
pub open spec fn is_scc_decomposition(succ: Seq<Seq<usize>>, cs: Seq<Seq<usize>>) -> bool {
    &&& is_scc_partition(succ, cs)
    &&& forall|c1: int, k1: int, c2: int, k2: int|
        0 <= c1 < cs.len() && 0 <= k1 < cs[c1].len() && 0 <= c2 < cs.len() && 0 <= k2
            < cs[c2].len() && #[trigger] edge(succ, cs[c1][k1], cs[c2][k2]) ==> c1 <= c2
}

} // verus!
