//! Cycle search on the `petgraph` dependency graph of the supervisor's
//! processes.
use vstd::prelude::*;
use std::collections::HashSet;

use petgraph::graph::Graph;

use crate::graph::order::{closed_walk_in, lemma_pop_order};
use crate::graph::search::{component_of, cycle_from, dfs_cycle, lemma_index_in, scan_row, ScanOutcome};
use crate::graph::paths::{
    edge, has_cycle, in_some_component, is_path, is_scc_partition, lemma_path_reaches, path_step,
    reaches, seqs_of,
};

verus! {

broadcast use vstd::std_specs::hash::group_hash_axioms;

#[verifier::external_type_specification]
#[verifier::external_body]
#[verifier::reject_recursive_types(N)]
#[verifier::reject_recursive_types(E)]
#[verifier::reject_recursive_types(Ty)]
#[verifier::reject_recursive_types(Ix)]
pub struct ExGraph<N, E, Ty, Ix>(Graph<N, E, Ty, Ix>);

#[verifier::external_type_specification]
#[verifier::external_body]
pub struct ExDirected(petgraph::Directed);

/// The weights of the nodes of a graph, by node index.
pub uninterp spec fn pg_nodes(g: Graph<String, ()>) -> Seq<Seq<char>>;

/// The edges of a graph, in the order they were added.
pub uninterp spec fn pg_edges(g: Graph<String, ()>) -> Seq<(usize, usize)>;

/// The targets of the edges from `u`, in the order the edges were added.
pub open spec fn out_targets(edges: Seq<(usize, usize)>, u: usize) -> Seq<usize>
    decreases edges.len(),
{
    if edges.len() == 0 {
        Seq::empty()
    } else {
        let r = out_targets(edges.drop_last(), u);
        if edges.last().0 == u {
            r.push(edges.last().1)
        } else {
            r
        }
    }
}

/// The edges `(u, t)` for each successor `t` of each node `u < i`, node by
/// node and each node's successors in order.
pub open spec fn edges_upto(succ: Seq<Seq<usize>>, i: int) -> Seq<(usize, usize)>
    decreases i,
{
    if i <= 0 {
        Seq::empty()
    } else {
        edges_upto(succ, i - 1) + succ[i - 1].map_values(|t: usize| ((i - 1) as usize, t))
    }
}

/// The edges of the successor lists `succ`, added node by node.
pub open spec fn edges_of(succ: Seq<Seq<usize>>) -> Seq<(usize, usize)> {
    edges_upto(succ, succ.len() as int)
}

/// What `petgraph::algo::toposort` gives for a graph with the nodes `0..n`
/// and the edges `edges`, added in that order: the nodes in order, or the
/// node at which it met a cycle.
pub uninterp spec fn toposort_of(n: nat, edges: Seq<(usize, usize)>) -> Result<Seq<usize>, usize>;

/// The outcome of a topological sort, its order taken as a sequence.
pub open spec fn sort_outcome(r: Result<Vec<usize>, usize>) -> Result<Seq<usize>, usize> {
    match r {
        Ok(order) => Ok(order@),
        Err(v) => Err(v),
    }
}

/// The successor lists of a graph with nodes `0..n` and the edges `edges`.
pub open spec fn succ_of(n: nat, edges: Seq<(usize, usize)>) -> Seq<Seq<usize>> {
    Seq::new(n, |u: int| out_targets(edges, u as usize))
}

/// The successor lists of a `petgraph` graph.
pub open spec fn pg_succ(g: Graph<String, ()>) -> Seq<Seq<usize>> {
    succ_of(pg_nodes(g).len(), pg_edges(g))
}

/// Every edge of the graph joins two of its nodes.
pub open spec fn pg_wf(g: Graph<String, ()>) -> bool {
    forall|k: int|
        #![trigger pg_edges(g)[k]]
        0 <= k < pg_edges(g).len() ==> pg_edges(g)[k].0 < pg_nodes(g).len() && pg_edges(g)[k].1
            < pg_nodes(g).len()
}

/// The successors of each node in the order `neighbors_directed` lists
/// them: the most recently added edge first.
pub open spec fn pg_rows(g: Graph<String, ()>) -> Seq<Seq<usize>> {
    Seq::new(pg_nodes(g).len(), |u: int| out_targets(pg_edges(g), u as usize).reverse())
}

/// The targets of the edges from `u` in two runs of edges, one after the
/// other, are those of the first run, then those of the second.
pub proof fn lemma_out_targets_append(a: Seq<(usize, usize)>, b: Seq<(usize, usize)>, u: usize)
    ensures
        out_targets(a + b, u) == out_targets(a, u) + out_targets(b, u),
    decreases b.len(),
{
    if b.len() == 0 {
        assert(a + b =~= a);
        assert(out_targets(a, u) + out_targets(b, u) =~= out_targets(a, u));
    } else {
        lemma_out_targets_append(a, b.drop_last(), u);
        assert((a + b).drop_last() =~= a + b.drop_last());
        assert((a + b).last() == b.last());
        if b.last().0 == u {
            assert(out_targets(a, u) + out_targets(b, u) =~= (out_targets(a, u) + out_targets(
                b.drop_last(),
                u,
            )).push(b.last().1));
        }
    }
}

/// The edges from `i` to each node of `row` have the targets `row` from
/// `i`, and none from another node.
pub proof fn lemma_out_targets_row(row: Seq<usize>, i: usize, u: usize)
    ensures
        out_targets(row.map_values(|t: usize| (i, t)), u) == (if u == i {
            row
        } else {
            Seq::<usize>::empty()
        }),
    decreases row.len(),
{
    let es = row.map_values(|t: usize| (i, t));
    if row.len() > 0 {
        lemma_out_targets_row(row.drop_last(), i, u);
        assert(es.drop_last() =~= row.drop_last().map_values(|t: usize| (i, t)));
        assert(es.last() == (i, row.last()));
        assert(row.drop_last().push(row.last()) =~= row);
    } else {
        assert(es.len() == 0);
    }
}

/// The targets from `u` of the edges of the first `i` successor lists.
pub proof fn lemma_edges_upto_targets(succ: Seq<Seq<usize>>, i: int, u: usize)
    requires
        0 <= i <= succ.len(),
        succ.len() <= usize::MAX,
    ensures
        out_targets(edges_upto(succ, i), u) == (if (u as int) < i {
            succ[u as int]
        } else {
            Seq::<usize>::empty()
        }),
    decreases i,
{
    if i > 0 {
        lemma_edges_upto_targets(succ, i - 1, u);
        let row = succ[i - 1].map_values(|t: usize| ((i - 1) as usize, t));
        lemma_out_targets_append(edges_upto(succ, i - 1), row, u);
        lemma_out_targets_row(succ[i - 1], (i - 1) as usize, u);
        assert(row =~= succ[i - 1].map_values(|t: usize| (((i - 1) as usize), t)));
        if (u as int) < i - 1 {
            assert(succ[u as int] + Seq::<usize>::empty() =~= succ[u as int]);
        } else if u as int == i - 1 {
            assert(Seq::<usize>::empty() + succ[u as int] =~= succ[u as int]);
        } else {
            assert(Seq::<usize>::empty() + Seq::<usize>::empty() =~= Seq::<usize>::empty());
        }
    }
}

/// A graph whose edges are those of the successor lists `succ`, added node
/// by node, has the successors `succ`.
pub proof fn lemma_graph_of_rows(g: Graph<String, ()>, succ: Seq<Seq<usize>>)
    requires
        pg_nodes(g).len() == succ.len(),
        succ.len() <= usize::MAX,
        pg_edges(g) == edges_of(succ),
    ensures
        pg_succ(g) == succ,
        pg_rows(g) == Seq::new(succ.len(), |u: int| succ[u].reverse()),
{
    assert forall|u: int| 0 <= u < succ.len() implies #[trigger] pg_succ(g)[u] == succ[u] by {
        lemma_edges_upto_targets(succ, succ.len() as int, u as usize);
    }
    assert(pg_succ(g) =~= succ);
    assert(pg_rows(g) =~= Seq::new(succ.len(), |u: int| succ[u].reverse()));
}

/// The targets of the edges from a node are nodes.
pub proof fn lemma_out_targets_bounded(edges: Seq<(usize, usize)>, n: nat, a: usize)
    requires
        forall|k: int| 0 <= k < edges.len() ==> #[trigger] edges[k].1 < n,
    ensures
        forall|k: int| 0 <= k < out_targets(edges, a).len() ==> #[trigger] out_targets(edges, a)[k] < n,
    decreases edges.len(),
{
    if edges.len() > 0 {
        let e = edges.drop_last();
        assert forall|k: int| 0 <= k < e.len() implies #[trigger] e[k].1 < n by {
            assert(e[k] == edges[k]);
        }
        lemma_out_targets_bounded(e, n, a);
        assert(edges.last() == edges[edges.len() - 1]);
        let r = out_targets(e, a);
        let o = out_targets(edges, a);
        assert forall|k: int| 0 <= k < o.len() implies #[trigger] o[k] < n by {
            if edges.last().0 == a {
                assert(o == r.push(edges.last().1));
                if k < r.len() {
                    assert(o[k] == r[k]);
                }
            } else {
                assert(o == r);
            }
        }
    }
}

/// `petgraph::Graph::new`: a graph without nodes or edges.
#[verifier::external_body]
pub(crate) fn pg_new() -> (g: Graph<String, ()>)
    ensures
        pg_nodes(g) == Seq::<Seq<char>>::empty(),
        pg_edges(g) == Seq::<(usize, usize)>::empty(),
{
    Graph::new()
}

/// `petgraph::Graph::add_node`: adds a node with weight `w` at the next
/// index, which it returns; it panics once `u32` indices run out.
#[verifier::external_body]
pub(crate) fn pg_add_node(g: &mut Graph<String, ()>, w: String) -> (i: usize)
    requires
        pg_nodes(*old(g)).len() < u32::MAX,
    ensures
        i == pg_nodes(*old(g)).len(),
        pg_nodes(*final(g)) == pg_nodes(*old(g)).push(w@),
        pg_edges(*final(g)) == pg_edges(*old(g)),
{
    g.add_node(w).index()
}

/// `petgraph::Graph::add_edge`: adds an edge `a -> b` after the others; it
/// panics for a node that does not exist or once `u32` indices run out.
#[verifier::external_body]
pub(crate) fn pg_add_edge(g: &mut Graph<String, ()>, a: usize, b: usize)
    requires
        a < pg_nodes(*old(g)).len(),
        b < pg_nodes(*old(g)).len(),
        pg_edges(*old(g)).len() < u32::MAX,
    ensures
        pg_nodes(*final(g)) == pg_nodes(*old(g)),
        pg_edges(*final(g)) == pg_edges(*old(g)).push((a, b)),
{
    let _ = g.add_edge(petgraph::graph::NodeIndex::new(a), petgraph::graph::NodeIndex::new(b), ());
}

/// The weight of node `i` (`graph[i]`), which must exist.
#[verifier::external_body]
pub(crate) fn pg_weight(g: &Graph<String, ()>, i: usize) -> (w: String)
    requires
        i < pg_nodes(*g).len(),
    ensures
        w@ == pg_nodes(*g)[i as int],
{
    g[petgraph::graph::NodeIndex::new(i)].clone()
}

/// `petgraph::Graph::neighbors_directed(a, Outgoing)`: the targets of the
/// edges from `a`, the most recently added first.
#[verifier::external_body]
pub(crate) fn pg_neighbors(g: &Graph<String, ()>, a: usize) -> (ns: Vec<usize>)
    requires
        a < pg_nodes(*g).len(),
    ensures
        ns@ == out_targets(pg_edges(*g), a).reverse(),
{
    g.neighbors_directed(petgraph::graph::NodeIndex::new(a), petgraph::Direction::Outgoing).map(
        |n| n.index(),
    ).collect()
}

/// `petgraph::algo::toposort`: `Ok` exactly when the graph has no cycle,
/// with the nodes of the graph, each once, in an order that puts each before
/// its successors; else a node that lies on a cycle. Which order and which
/// node depend on the node count and the edges in the order they were added
/// alone: that is `toposort_of`.
#[verifier::external_body]
pub(crate) fn pg_toposort(g: &Graph<String, ()>) -> (r: Result<Vec<usize>, usize>)
    requires
        pg_wf(*g),
    ensures
        r is Ok <==> !has_cycle(pg_succ(*g)),
        r matches Ok(order) ==> order@.len() == pg_nodes(*g).len() && order@.no_duplicates() && (
        forall|k: int| 0 <= k < order@.len() ==> #[trigger] order@[k] < pg_nodes(*g).len()) && (
        forall|a: int, b: int|
            0 <= a < b < order@.len() ==> !edge(pg_succ(*g), order@[b], order@[a])),
        r matches Err(v) ==> v < pg_nodes(*g).len() && exists|w: usize|
            #[trigger] edge(pg_succ(*g), v, w) && reaches(pg_succ(*g), w, v),
        toposort_of(pg_nodes(*g).len(), pg_edges(*g)) == sort_outcome(r),
{
    match petgraph::algo::toposort(g, None) {
        Ok(order) => Ok(order.into_iter().map(|i| i.index()).collect()),
        Err(cycle) => Err(cycle.node_id().index()),
    }
}

/// `petgraph::algo::kosaraju_scc`: the strongly connected components of the
/// graph. Their order (reverse topological, as documented) is not stated.
#[verifier::external_body]
pub(crate) fn pg_kosaraju_scc(g: &Graph<String, ()>) -> (cs: Vec<Vec<usize>>)
    requires
        pg_wf(*g),
    ensures
        is_scc_partition(pg_succ(*g), seqs_of(cs@)),
{
    petgraph::algo::kosaraju_scc(g).into_iter().map(
        |scc| scc.into_iter().map(|i| i.index()).collect(),
    ).collect()
}

/// A `petgraph` graph with the nodes `names`, by index, and the edges
/// `edges`, in order: the graph on which `find_cycle_in_scc` and
/// `cycle_through` search.
pub fn graph_of(names: &Vec<String>, edges: &Vec<(usize, usize)>) -> (g: Graph<String, ()>)
    requires
        names@.len() < u32::MAX,
        edges@.len() < u32::MAX,
        forall|k: int|
            0 <= k < edges@.len() ==> #[trigger] edges@[k].0 < names@.len() && edges@[k].1 < names@.len(),
    ensures
        pg_nodes(g) == names@.map_values(|s: String| s@),
        pg_edges(g) == edges@,
        pg_wf(g),
{
    let mut g = pg_new();
    let mut i: usize = 0;
    while i < names.len()
        invariant
            i <= names@.len(),
            names@.len() < u32::MAX,
            pg_nodes(g) == names@.take(i as int).map_values(|s: String| s@),
            pg_edges(g) == Seq::<(usize, usize)>::empty(),
        decreases names@.len() - i,
    {
        let _ = pg_add_node(&mut g, names[i].clone());
        proof {
            assert(names@.take(i + 1).map_values(|s: String| s@) =~= names@.take(i as int).map_values(
                |s: String| s@,
            ).push(names@[i as int]@));
        }
        i += 1;
    }
    proof {
        assert(names@.take(names@.len() as int) =~= names@);
    }
    let mut k: usize = 0;
    while k < edges.len()
        invariant
            k <= edges@.len(),
            edges@.len() < u32::MAX,
            forall|m: int|
                0 <= m < edges@.len() ==> #[trigger] edges@[m].0 < names@.len() && edges@[m].1 < names@.len(),
            pg_nodes(g) == names@.map_values(|s: String| s@),
            pg_edges(g) == edges@.take(k as int),
        decreases edges@.len() - k,
    {
        let (a, b) = edges[k];
        pg_add_edge(&mut g, a, b);
        proof {
            assert(edges@.take(k + 1) =~= edges@.take(k as int).push(edges@[k as int]));
        }
        k += 1;
    }
    proof {
        assert(edges@.take(edges@.len() as int) =~= edges@);
    }
    g
}

/// Searches the nodes of `scc` depth-first from `start` for a node whose
/// successor in `scc` is still being explored, and returns that stretch of
/// the search stack, closed by the successor (exactly the search model
/// `cycle_from`, successors taken most recent edge first); `None` when the
/// search ends without one, which happens only when no closed walk leads
/// from `start` back to it through `scc`.
pub fn find_cycle_in_scc(graph: &Graph<String, ()>, scc: &[usize], start: usize) -> (r: Option<
    Vec<usize>,
>)
    requires
        pg_wf(*graph),
        start < pg_nodes(*graph).len(),
    ensures
        r matches Some(c) ==> {
            &&& c@.len() >= 2
            &&& c@[0] == c@.last()
            &&& forall|k: int| 0 <= k < c@.len() ==> #[trigger] c@[k] == start || scc@.contains(c@[k])
            &&& is_path(pg_succ(*graph), c@)
            &&& c@.drop_last().no_duplicates()
        },
        closed_walk_in(pg_succ(*graph), start, scc@.to_set()) ==> r is Some,
        match r {
            Some(c) => cycle_from(pg_rows(*graph), scc@.to_set(), false, start) == Some(c@),
            None => cycle_from(pg_rows(*graph), scc@.to_set(), false, start) is None,
        },
{
    let ghost n = pg_nodes(*graph).len();
    let ghost succ = pg_succ(*graph);
    let ghost edges = pg_edges(*graph);
    let mut scc_set: HashSet<usize> = HashSet::new();
    let mut t: usize = 0;
    while t < scc.len()
        invariant
            t <= scc@.len(),
            forall|v: usize| #[trigger] scc_set@.contains(v) <==> scc@.take(t as int).contains(v),
        decreases scc@.len() - t,
    {
        scc_set.insert(scc[t]);
        proof {
            let s0 = scc@.take(t as int);
            let s1 = scc@.take(t + 1);
            assert forall|v: usize| #[trigger] scc_set@.contains(v) <==> s1.contains(v) by {
                if s0.contains(v) {
                    let k = choose|k: int| 0 <= k < s0.len() && s0[k] == v;
                    assert(s1[k] == v);
                }
                if s1.contains(v) {
                    let k = choose|k: int| 0 <= k < s1.len() && s1[k] == v;
                    if k < t {
                        assert(s0[k] == v);
                    }
                }
                if v == scc@[t as int] {
                    assert(s1[t as int] == v);
                }
            }
        }
        t += 1;
    }
    proof {
        assert(scc@.take(scc@.len() as int) =~= scc@);
    }
    let ghost u = scc@.to_set().insert(start);
    let mut stack: Vec<usize> = Vec::new();
    let mut on_stack: HashSet<usize> = HashSet::new();
    let mut visited: HashSet<usize> = HashSet::new();
    stack.push(start);
    on_stack.insert(start);
    visited.insert(start);
    let ghost mut done: Seq<usize> = Seq::empty();
    let ghost rows = pg_rows(*graph);
    let ghost sset = scc@.to_set();
    let ghost target = cycle_from(rows, sset, false, start);
    proof {
        reveal(scan_row);
        reveal(dfs_cycle);
    }
    proof {
        vstd::seq_lib::seq_to_set_is_finite(scc@);
        assert(stack@ =~= seq![start]);
        assert(on_stack@ =~= stack@.to_set()) by {
            assert(stack@[0] == start);
        }
        assert forall|v: usize| #[trigger] visited@.contains(v) <==> (stack@.contains(v)
            || done.contains(v)) by {
            if v == start {
                assert(stack@[0] == v);
            }
        }
    }
    while stack.len() > 0
        invariant
            pg_wf(*graph),
            n == pg_nodes(*graph).len(),
            succ == pg_succ(*graph),
            edges == pg_edges(*graph),
            start < n,
            u == scc@.to_set().insert(start),
            u.finite(),
            forall|v: usize| #[trigger] scc_set@.contains(v) <==> scc@.contains(v),
            stack@.no_duplicates(),
            on_stack@ == stack@.to_set(),
            forall|k: int| 0 <= k < stack@.len() ==> visited@.contains(#[trigger] stack@[k]),
            visited@.subset_of(u),
            forall|k: int| 0 <= k < stack@.len() ==> #[trigger] stack@[k] < n,
            forall|k: int|
                0 <= k < stack@.len() ==> #[trigger] stack@[k] == start || scc@.contains(stack@[k]),
            stack@.len() > 0 ==> stack@[0] == start,
            forall|k: int| 0 <= k < stack@.len() - 1 ==> #[trigger] edge(succ, stack@[k], stack@[k + 1]),
            visited@.contains(start),
            rows == pg_rows(*graph),
            sset == scc@.to_set(),
            sset.finite(),
            target == cycle_from(rows, sset, false, start),
            visited@.finite(),
            dfs_cycle(rows, sset, false, stack@, visited@) == target,
            done.no_duplicates(),
            forall|a: int, b: int|
                0 <= a < stack@.len() && 0 <= b < done.len() ==> stack@[a] != done[b],
            forall|v: usize| #[trigger] visited@.contains(v) <==> (stack@.contains(v) || done.contains(v)),
            forall|a: int, v: usize|
                0 <= a < done.len() && #[trigger] edge(succ, done[a], v) && scc@.contains(v) ==> exists|
                    b: int,
                | 0 <= b < a && #[trigger] done[b] == v,
        decreases u.len() - visited@.len(), stack@.len(),
    {
        proof {
            vstd::set_lib::lemma_len_subset(visited@, u);
        }
        let ghost stack0 = stack@;
        proof {
            reveal(scan_row);
            reveal(dfs_cycle);
        }
        let node = stack[stack.len() - 1];
        let neighbors = pg_neighbors(graph, node);
        proof {
            assert forall|k: int| 0 <= k < edges.len() implies #[trigger] edges[k].1 < n by {
                assert(pg_wf(*graph));
            }
            lemma_out_targets_bounded(edges, n, node);
            let o = out_targets(edges, node);
            assert forall|k: int| 0 <= k < neighbors@.len() implies #[trigger] neighbors@[k] < n by {
                assert(neighbors@[k] == o[o.len() - 1 - k]);
            }
        }
        let ghost visited_before = visited@;
        let mut found_next = false;
        let mut j: usize = 0;
        while j < neighbors.len() && !found_next
            invariant
                n == pg_nodes(*graph).len(),
                succ == pg_succ(*graph),
                edges == pg_edges(*graph),
                forall|k: int| 0 <= k < stack@.len() - 1 ==> #[trigger] edge(succ, stack@[k], stack@[k + 1]),
                start < n,
                node < n,
                u == scc@.to_set().insert(start),
                u.finite(),
                forall|v: usize| #[trigger] scc_set@.contains(v) <==> scc@.contains(v),
                stack@.len() > 0,
                stack@.no_duplicates(),
                on_stack@ == stack@.to_set(),
                forall|k: int| 0 <= k < stack@.len() ==> visited@.contains(#[trigger] stack@[k]),
                visited@.subset_of(u),
                visited_before.subset_of(visited@),
                found_next ==> visited@.len() > visited_before.len(),
                !found_next ==> visited@ == visited_before,
                visited_before.finite(),
                visited@.finite(),
                forall|k: int| 0 <= k < stack@.len() ==> #[trigger] stack@[k] < n,
                forall|k: int|
                    0 <= k < stack@.len() ==> #[trigger] stack@[k] == start || scc@.contains(
                        stack@[k],
                    ),
                j <= neighbors@.len(),
                stack0.len() > 0,
                stack0.last() == node,
                !found_next ==> stack@ == stack0,
                forall|k: int| 0 <= k < neighbors@.len() ==> #[trigger] neighbors@[k] < n,
                stack@.len() > 0 ==> stack@[0] == start,
                visited@.contains(start),
                rows == pg_rows(*graph),
                sset == scc@.to_set(),
                sset.finite(),
                target == cycle_from(rows, sset, false, start),
                visited_before.finite(),
                neighbors@ == rows[node as int],
                dfs_cycle(rows, sset, false, stack0, visited_before) == target,
                scan_row(rows[node as int], sset, None, stack@, visited@, j as int, found_next) == scan_row(
                    rows[node as int],
                    sset,
                    None,
                    stack0,
                    visited_before,
                    0,
                    false,
                ),
                done.no_duplicates(),
                forall|a: int, b: int|
                    0 <= a < stack@.len() && 0 <= b < done.len() ==> stack@[a] != done[b],
                forall|v: usize| #[trigger] visited@.contains(v) <==> (stack@.contains(v)
                    || done.contains(v)),
                !found_next ==> forall|k: int|
                    0 <= k < j && scc@.contains(#[trigger] neighbors@[k]) ==> done.contains(
                        neighbors@[k],
                    ),
            decreases neighbors@.len() - j,
        {
            proof {
                reveal(scan_row);
                reveal(dfs_cycle);
            }
            let neighbor = neighbors[j];
            if !scc_set.contains(&neighbor) {
                j += 1;
                continue;
            }
            let ghost visited_now = visited@;
            proof {
                let o = out_targets(edges, node);
                assert(neighbors@[j as int] == o[o.len() - 1 - j]);
                assert(succ[node as int] == o);
                assert(o.contains(neighbor));
                assert(edge(succ, node, neighbor));
            }
            if visited.insert(neighbor) {
                let ghost before = stack@;
                stack.push(neighbor);
                on_stack.insert(neighbor);
                proof {
                    assert(before == stack0);
                    assert forall|k: int| 0 <= k < stack@.len() - 1 implies #[trigger] edge(
                        succ,
                        stack@[k],
                        stack@[k + 1],
                    ) by {
                        if k < before.len() - 1 {
                            assert(stack@[k] == before[k] && stack@[k + 1] == before[k + 1]);
                        } else {
                            assert(stack@[k] == node && stack@[k + 1] == neighbor);
                        }
                    }
                    assert(!before.contains(neighbor)) by {
                        if before.contains(neighbor) {
                            let k = choose|k: int| 0 <= k < before.len() && before[k] == neighbor;
                            assert(visited_now.contains(before[k]));
                        }
                    }
                    assert(!done.contains(neighbor));
                    assert forall|v: usize| #[trigger] stack@.contains(v) <==> (before.contains(v)
                        || v == neighbor) by {
                        if stack@.contains(v) {
                            let k = choose|k: int| 0 <= k < stack@.len() && stack@[k] == v;
                            if k < before.len() {
                                assert(before[k] == v);
                            }
                        }
                        if before.contains(v) {
                            let k = choose|k: int| 0 <= k < before.len() && before[k] == v;
                            assert(stack@[k] == v);
                        }
                        if v == neighbor {
                            assert(stack@[before.len() as int] == v);
                        }
                    }
                    assert(on_stack@ =~= stack@.to_set());
                    if !found_next {
                        assert(!visited_before.contains(neighbor));
                    }
                    assert(visited@ == visited_now.insert(neighbor));
                    assert(visited@.len() == visited_now.len() + 1);
                    assert(u.contains(neighbor)) by {
                        assert(scc@.to_set().contains(neighbor));
                    }
                    assert forall|a: int, b: int|
                        0 <= a < stack@.len() && 0 <= b < done.len() implies stack@[a] != done[b] by {
                        if a < before.len() {
                            assert(stack@[a] == before[a]);
                        }
                    }
                    assert(stack@[0] == before[0]);
                }
                found_next = true;
            } else if on_stack.contains(&neighbor) {
                proof {
                    assert(visited@ =~= visited_now);
                }
                let ghost s = stack@;
                let mut p: usize = stack.len() - 1;
                while stack[p] != neighbor
                    invariant
                        s == stack@,
                        p < s.len(),
                        s.contains(neighbor),
                        forall|k: int| p < k < s.len() ==> s[k] != neighbor,
                    decreases p,
                {
                    proof {
                        if p == 0 {
                            let k = choose|k: int| 0 <= k < s.len() && s[k] == neighbor;
                            assert(false);
                        }
                    }
                    p -= 1;
                }
                let mut cycle: Vec<usize> = Vec::new();
                let mut q = p;
                while q < stack.len()
                    invariant
                        s == stack@,
                        p <= q <= s.len(),
                        s[p as int] == neighbor,
                        cycle@ == s.subrange(p as int, q as int),
                    decreases s.len() - q,
                {
                    cycle.push(stack[q]);
                    proof {
                        assert(s.subrange(p as int, q + 1) =~= s.subrange(p as int, q as int).push(s[q as int]));
                    }
                    q += 1;
                }
                cycle.push(neighbor);
                proof {
                    assert(cycle@[0] == neighbor);
                    assert forall|k: int| 0 <= k < cycle@.len() implies #[trigger] cycle@[k] == start || scc@.contains(cycle@[k]) by {
                        if k < cycle@.len() - 1 {
                            assert(cycle@[k] == s[p + k]);
                        }
                    }
                    lemma_index_in(s, neighbor, p as int);
                    assert(s == stack0 && s.last() == node);
                    assert forall|k: int| 0 <= k < cycle@.len() - 1 implies #[trigger] path_step(
                        succ,
                        cycle@,
                        k,
                    ) by {
                        if k < cycle@.len() - 2 {
                            assert(cycle@[k] == s[p + k] && cycle@[k + 1] == s[p + k + 1]);
                        } else {
                            assert(cycle@[k] == s[s.len() - 1]);
                            assert(cycle@[k + 1] == neighbor);
                        }
                    }
                    assert forall|k: int| 0 <= k < cycle@.len() implies #[trigger] cycle@[k] < succ.len() by {
                        if k < cycle@.len() - 1 {
                            assert(cycle@[k] == s[p + k]);
                        }
                    }
                    assert(cycle@.drop_last() =~= s.subrange(p as int, s.len() as int));
                    assert(is_path(succ, cycle@));
                    assert(sset.contains(neighbor));
                    assert(visited@.contains(neighbor));
                    assert(scan_row(rows[node as int], sset, None, s, visited@, j as int, found_next)
                        == ScanOutcome::Closed(cycle@));
                    assert(stack0.len() > 0 && stack0.last() == node);
                    assert(dfs_cycle(rows, sset, false, stack0, visited_before) == Some(cycle@));
                    assert(target == Some(cycle@));
                }
                return Some(cycle);
            } else {
                proof {
                    assert(visited@ =~= visited_now);
                    assert(!stack@.contains(neighbor));
                    assert(done.contains(neighbor));
                }
            }
            j += 1;
        }
        proof {
            vstd::set_lib::lemma_len_subset(visited@, u);
        }
        if !found_next {
            let ghost before = stack@;
            stack.pop();
            on_stack.remove(&node);
            proof {
                let a0 = done.len() as int;
                let done0 = done;
                done = done.push(node);
                assert(before.last() == node);
                assert(stack@ =~= before.drop_last());
                assert forall|v: usize| #[trigger] stack@.contains(v) <==> (before.contains(v)
                    && v != node) by {
                    if stack@.contains(v) {
                        let k = choose|k: int| 0 <= k < stack@.len() && stack@[k] == v;
                        assert(before[k] == v);
                        assert(k != before.len() - 1);
                    }
                    if before.contains(v) && v != node {
                        let k = choose|k: int| 0 <= k < before.len() && before[k] == v;
                        assert(k != before.len() - 1);
                        assert(stack@[k] == v);
                    }
                }
                assert(on_stack@ =~= stack@.to_set());
                assert(before[before.len() - 1] == node);
                assert(!done0.contains(node)) by {
                    if done0.contains(node) {
                        let b = choose|b: int| 0 <= b < done0.len() && done0[b] == node;
                        assert(before[before.len() - 1] != done0[b]);
                    }
                }
                assert forall|v: usize| #[trigger] done.contains(v) <==> (done0.contains(v)
                    || v == node) by {
                    if done.contains(v) {
                        let k = choose|k: int| 0 <= k < done.len() && done[k] == v;
                        if k < done0.len() {
                            assert(done0[k] == v);
                        }
                    }
                    if done0.contains(v) {
                        let k = choose|k: int| 0 <= k < done0.len() && done0[k] == v;
                        assert(done[k] == v);
                    }
                    if v == node {
                        assert(done[a0] == v);
                    }
                }
                assert(done.no_duplicates()) by {
                    assert forall|x: int, y: int|
                        0 <= x < done.len() && 0 <= y < done.len() && x != y implies done[x]
                        != done[y] by {
                        if x == a0 {
                            assert(done0.contains(done[y]));
                        } else if y == a0 {
                            assert(done0.contains(done[x]));
                        } else {
                            assert(done[x] == done0[x] && done[y] == done0[y]);
                        }
                    }
                }
                assert forall|a: int, b: int|
                    0 <= a < stack@.len() && 0 <= b < done.len() implies stack@[a] != done[b] by {
                    assert(stack@[a] == before[a]);
                    if b < a0 {
                        assert(done[b] == done0[b]);
                    } else {
                        assert(a != before.len() - 1);
                    }
                }
                let o = out_targets(edges, node);
                assert forall|a: int, v: usize|
                    0 <= a < done.len() && #[trigger] edge(succ, done[a], v) && scc@.contains(
                        v,
                    ) implies exists|b: int| 0 <= b < a && #[trigger] done[b] == v by {
                    if a < a0 {
                        assert(done[a] == done0[a]);
                        assert(edge(succ, done0[a], v));
                        let b = choose|b: int| 0 <= b < a && #[trigger] done0[b] == v;
                        assert(done[b] == v);
                    } else {
                        assert(done[a] == node);
                        assert(succ[node as int] == o);
                        let m = choose|m: int| 0 <= m < o.len() && o[m] == v;
                        assert(neighbors@[o.len() - 1 - m] == v);
                        assert(done0.contains(v));
                        let b = choose|b: int| 0 <= b < done0.len() && done0[b] == v;
                        assert(done[b] == v);
                    }
                }
                if stack@.len() > 0 {
                    assert(stack@[0] == before[0]);
                }
            }
        }
    }
    proof {
        assert(done.contains(start));
        if closed_walk_in(succ, start, scc@.to_set()) {
            let w = choose|w: Seq<usize>|
                #[trigger] is_path(succ, w) && w.len() >= 2 && w[0] == start && w.last() == start
                    && (forall|k: int| 1 <= k < w.len() ==> scc@.to_set().contains(#[trigger] w[k]));
            let a0 = choose|a: int| 0 <= a < done.len() && done[a] == start;
            let b = lemma_pop_order(succ, done, scc@.to_set(), w, a0, w.len() - 1);
            assert(done[b] == done[a0]);
        }
    }
    None
}

/// A cycle through `node`, which lies on one: the stretch of the search in
/// its strongly connected component that closes on itself, exactly as the
/// search model gives it. All of its nodes reach one another.
pub fn cycle_through(graph: &Graph<String, ()>, node: usize) -> (c: Vec<usize>)
    requires
        pg_wf(*graph),
        node < pg_nodes(*graph).len(),
        exists|w: usize| #[trigger] edge(pg_succ(*graph), node, w) && reaches(pg_succ(*graph), w, node),
    ensures
        cycle_from(pg_rows(*graph), component_of(pg_succ(*graph), node), false, node) == Some(c@),
        c@.len() >= 2,
        c@[0] == c@.last(),
        is_path(pg_succ(*graph), c@),
        c@.drop_last().no_duplicates(),
        forall|k: int| 0 <= k < c@.len() ==> #[trigger] c@[k] < pg_nodes(*graph).len(),
        forall|k1: int, k2: int|
            0 <= k1 < c@.len() && 0 <= k2 < c@.len() ==> reaches(
                pg_succ(*graph),
                #[trigger] c@[k1],
                #[trigger] c@[k2],
            ),
{
    let ghost succ = pg_succ(*graph);
    let sccs = pg_kosaraju_scc(graph);
    let ghost cs = seqs_of(sccs@);
    let mut c: usize = 0;
    let mut found = false;
    while c < sccs.len() && !found
        invariant
            cs == seqs_of(sccs@),
            c <= sccs@.len(),
            found ==> c < sccs@.len() && cs[c as int].contains(node),
            forall|c2: int, k: int|
                0 <= c2 < c && 0 <= k < cs[c2].len() ==> #[trigger] cs[c2][k] != node,
        decreases sccs@.len() - c, if found { 0int } else { 1int },
    {
        let scc = &sccs[c];
        let mut k: usize = 0;
        while k < scc.len()
            invariant
                cs == seqs_of(sccs@),
                c < sccs@.len(),
                scc@ == cs[c as int],
                k <= scc@.len(),
                forall|k2: int| 0 <= k2 < k ==> #[trigger] scc@[k2] != node,
            ensures
                k < scc@.len() ==> scc@[k as int] == node,
                k == scc@.len() ==> forall|k2: int| 0 <= k2 < scc@.len() ==> #[trigger] scc@[k2] != node,
            decreases scc@.len() - k,
        {
            if scc[k] == node {
                break;
            }
            k += 1;
        }
        if k < scc.len() {
            found = true;
            proof {
                assert(cs[c as int][k as int] == node);
            }
        } else {
            c += 1;
        }
    }
    if !found {
        proof {
            assert(in_some_component(cs, node));
        }
        return vec![node];
    }
    let ghost comp = cs[c as int];
    proof {
        let k0 = choose|k: int| 0 <= k < comp.len() && comp[k] == node;
        let w = choose|w: usize| #[trigger] edge(succ, node, w) && reaches(succ, w, node);
        let q = choose|q: Seq<usize>| #[trigger] is_path(succ, q) && q[0] == w && q.last() == node;
        let p = seq![node] + q;
        assert(is_path(succ, p)) by {
            assert forall|i: int| 0 <= i < p.len() - 1 implies #[trigger] path_step(succ, p, i) by {
                if i == 0 {
                    assert(p[1] == q[0]);
                } else {
                    assert(p[i] == q[i - 1] && p[i + 1] == q[i]);
                    assert(path_step(succ, q, i - 1));
                }
            }
            assert forall|i: int| 0 <= i < p.len() implies #[trigger] p[i] < succ.len() by {
                if i > 0 {
                    assert(p[i] == q[i - 1]);
                }
            }
        }
        assert forall|k: int| 1 <= k < p.len() implies comp.to_set().contains(#[trigger] p[k]) by {
            lemma_path_reaches(succ, p, 0, k);
            lemma_path_reaches(succ, p, k, p.len() - 1);
            assert(p.last() == q.last());
            assert(reaches(succ, cs[c as int][k0], p[k]) && reaches(succ, p[k], cs[c as int][k0]));
            assert(cs[c as int].contains(p[k]));
        }
        assert(closed_walk_in(succ, node, comp.to_set()));
        assert(sccs@[c as int]@ == comp);
        assert(comp.to_set() =~= component_of(succ, node)) by {
            assert forall|x: usize| comp.contains(x) implies #[trigger] component_of(succ, node).contains(x) by {
                let m = choose|m: int| 0 <= m < comp.len() && comp[m] == x;
                assert(reaches(succ, cs[c as int][k0], cs[c as int][m]));
                assert(reaches(succ, cs[c as int][m], cs[c as int][k0]));
            }
            assert forall|x: usize| #[trigger] component_of(succ, node).contains(x) implies comp.contains(x) by {
                assert(reaches(succ, cs[c as int][k0], x) && reaches(succ, x, cs[c as int][k0]));
            }
        }
    }
    match find_cycle_in_scc(graph, sccs[c].as_slice(), node) {
        None => vec![node],
        Some(cycle) => {
            proof {
                assert forall|k: int| 0 <= k < cycle@.len() implies #[trigger] comp.contains(cycle@[k]) by {}
                assert forall|k: int| 0 <= k < cycle@.len() implies #[trigger] cycle@[k] < pg_nodes(*graph).len() by {
                    assert(comp.contains(cycle@[k]));
                    let m = choose|m: int| 0 <= m < comp.len() && comp[m] == cycle@[k];
                    assert(cs[c as int][m] < succ.len());
                }
                assert forall|k1: int, k2: int|
                    0 <= k1 < cycle@.len() && 0 <= k2 < cycle@.len() implies reaches(
                    succ,
                    #[trigger] cycle@[k1],
                    #[trigger] cycle@[k2],
                ) by {
                    assert(comp.contains(cycle@[k1]));
                    assert(comp.contains(cycle@[k2]));
                    let m1 = choose|m: int| 0 <= m < comp.len() && comp[m] == cycle@[k1];
                    let m2 = choose|m: int| 0 <= m < comp.len() && comp[m] == cycle@[k2];
                    assert(reaches(succ, cs[c as int][m1], cs[c as int][m2]));
                }
            }
            cycle
        },
    }
}

} // verus!
