//! The dependency graph of the needed modules: node `k` stands for the `k`-th
//! needed module and has an edge to each of that module's dependencies.
use vstd::prelude::*;

use crate::graph::paths::{edge, has_cycle, is_path, path_step, reaches};
use crate::config::supervise::cycles::{edges_of, toposort_of};
use crate::graph::order::last_on_cycle;
use crate::graph::search::{component_of, cycle_from, on_cycle};
use super::resolve::{
    all_declared, dep_chain, dep_step, depends_on, has_dep_cycle, lemma_closed_holds_chain,
    lemma_required_step, required,
};

verus! {

/// The node ids registered in `idx` for the names `ys`.
pub open spec fn ids_of(idx: Map<Seq<char>, usize>, ys: Seq<Seq<char>>) -> Seq<usize> {
    ys.map_values(|y: Seq<char>| idx[y])
}

/// `succ` is the dependency graph of the needed modules `nn`, whose ids are
/// registered in `idx`.
pub open spec fn is_dep_graph(
    d: Map<Seq<char>, Seq<Seq<char>>>,
    nn: Seq<Seq<char>>,
    idx: Map<Seq<char>, usize>,
    succ: Seq<Seq<usize>>,
) -> bool {
    &&& succ.len() == nn.len()
    &&& succ.len() <= usize::MAX
    &&& forall|k: int| #![trigger nn[k]] 0 <= k < nn.len() ==> idx.contains_key(nn[k]) && idx[nn[k]] == k
    &&& forall|k: int| 0 <= k < nn.len() ==> #[trigger] succ[k] == ids_of(idx, d[nn[k]])
}

/// The needed modules `nn` are exactly what the targets require, each once,
/// and all of them are declared.
pub open spec fn is_needed_set(
    d: Map<Seq<char>, Seq<Seq<char>>>,
    t: Seq<Seq<char>>,
    nn: Seq<Seq<char>>,
) -> bool {
    &&& all_declared(d, t)
    &&& nn.no_duplicates()
    &&& forall|x: Seq<char>| #[trigger] nn.contains(x) <==> required(d, t, x)
}

/// A needed module's dependencies are needed too.
pub proof fn lemma_needed_closed(
    d: Map<Seq<char>, Seq<Seq<char>>>,
    t: Seq<Seq<char>>,
    nn: Seq<Seq<char>>,
)
    requires
        is_needed_set(d, t, nn),
    ensures
        forall|x: Seq<char>, y: Seq<char>|
            nn.contains(x) && #[trigger] d[x].contains(y) ==> d.contains_key(x) && nn.contains(y),
{
    assert forall|x: Seq<char>, y: Seq<char>| nn.contains(x) && #[trigger] d[x].contains(y) implies d.contains_key(
        x,
    ) && nn.contains(y) by {
        assert(required(d, t, x));
        lemma_required_step(d, t, x, y);
    }
}

/// The edges of the graph are exactly the dependencies between needed modules.
pub proof fn lemma_edges_match(
    d: Map<Seq<char>, Seq<Seq<char>>>,
    t: Seq<Seq<char>>,
    nn: Seq<Seq<char>>,
    idx: Map<Seq<char>, usize>,
    succ: Seq<Seq<usize>>,
)
    requires
        is_needed_set(d, t, nn),
        is_dep_graph(d, nn, idx, succ),
    ensures
        forall|u: usize, v: usize|
            #[trigger] edge(succ, u, v) <==> (u < nn.len() && v < nn.len() && d[nn[u as int]].contains(
                nn[v as int],
            )),
{
    lemma_needed_closed(d, t, nn);
    assert forall|u: usize, v: usize| #[trigger] edge(succ, u, v) <==> (u < nn.len() && v < nn.len()
        && d[nn[u as int]].contains(nn[v as int])) by {
        if edge(succ, u, v) {
            let s = succ[u as int];
            let k = choose|k: int| 0 <= k < s.len() && s[k] == v;
            let y = d[nn[u as int]][k];
            assert(d[nn[u as int]].contains(y));
            assert(nn.contains(y));
            let m = choose|m: int| 0 <= m < nn.len() && nn[m] == y;
            assert(idx[nn[m]] == m);
            assert(s[k] == idx[y]);
            assert(nn[v as int] == y);
        }
        if u < nn.len() && v < nn.len() && d[nn[u as int]].contains(nn[v as int]) {
            let ys = d[nn[u as int]];
            let k = choose|k: int| 0 <= k < ys.len() && ys[k] == nn[v as int];
            assert(succ[u as int][k] == idx[nn[v as int]]);
            assert(succ[u as int][k] == v);
        }
    }
}

/// Paths in the graph are chains of dependencies between needed modules.
pub proof fn lemma_reaches_match(
    d: Map<Seq<char>, Seq<Seq<char>>>,
    t: Seq<Seq<char>>,
    nn: Seq<Seq<char>>,
    idx: Map<Seq<char>, usize>,
    succ: Seq<Seq<usize>>,
    u: usize,
    v: usize,
)
    requires
        is_needed_set(d, t, nn),
        is_dep_graph(d, nn, idx, succ),
        u < nn.len(),
        v < nn.len(),
    ensures
        reaches(succ, u, v) <==> depends_on(d, nn[u as int], nn[v as int]),
{
    lemma_edges_match(d, t, nn, idx, succ);
    lemma_needed_closed(d, t, nn);
    if reaches(succ, u, v) {
        let p = choose|p: Seq<usize>| #[trigger] is_path(succ, p) && p[0] == u && p.last() == v;
        let q = p.map_values(|x: usize| nn[x as int]);
        assert forall|i: int| 0 <= i < q.len() - 1 implies #[trigger] dep_step(d, q, i) by {
            assert(path_step(succ, p, i));
            assert(edge(succ, p[i], p[i + 1]));
            assert(nn.contains(nn[p[i] as int]));
        }
        assert(dep_chain(d, q));
    }
    if depends_on(d, nn[u as int], nn[v as int]) {
        let q = choose|q: Seq<Seq<char>>|
            #[trigger] dep_chain(d, q) && q[0] == nn[u as int] && q.last() == nn[v as int];
        assert forall|i: int| 0 <= i < q.len() implies nn.contains(#[trigger] q[i]) by {
            let qi = q.take(i + 1);
            assert forall|j: int| 0 <= j < qi.len() - 1 implies #[trigger] dep_step(d, qi, j) by {
                assert(dep_step(d, q, j));
            }
            assert(nn.contains(q[0]));
            lemma_closed_holds_chain(d, nn, qi);
        }
        let p = q.map_values(|y: Seq<char>| idx[y]);
        assert forall|i: int| 0 <= i < p.len() implies #[trigger] p[i] < succ.len() && nn[p[i] as int]
            == q[i] by {
            assert(nn.contains(q[i]));
            let m = choose|m: int| 0 <= m < nn.len() && nn[m] == q[i];
            assert(idx[nn[m]] == m);
        }
        assert forall|i: int| 0 <= i < p.len() - 1 implies #[trigger] path_step(succ, p, i) by {
            assert(dep_step(d, q, i));
            assert(p[i] < succ.len() && nn[p[i] as int] == q[i]);
            assert(p[i + 1] < succ.len() && nn[p[i + 1] as int] == q[i + 1]);
            assert(edge(succ, p[i], p[i + 1]));
        }
        assert(is_path(succ, p));
        assert(p[0] == u) by {
            assert(idx[nn[u as int]] == u);
        }
        assert(p.last() == v) by {
            assert(idx[nn[v as int]] == v);
        }
    }
}

/// The graph has a cycle exactly when the needed modules do.
pub proof fn lemma_cycle_match(
    d: Map<Seq<char>, Seq<Seq<char>>>,
    t: Seq<Seq<char>>,
    nn: Seq<Seq<char>>,
    idx: Map<Seq<char>, usize>,
    succ: Seq<Seq<usize>>,
)
    requires
        is_needed_set(d, t, nn),
        is_dep_graph(d, nn, idx, succ),
    ensures
        has_cycle(succ) <==> has_dep_cycle(d, t),
{
    lemma_edges_match(d, t, nn, idx, succ);
    lemma_needed_closed(d, t, nn);
    if has_cycle(succ) {
        let (u, v) = choose|u: usize, v: usize| #[trigger] edge(succ, u, v) && reaches(succ, v, u);
        lemma_reaches_match(d, t, nn, idx, succ, v, u);
        let x = nn[u as int];
        let y = nn[v as int];
        assert(nn.contains(x));
        assert(required(d, t, x));
        assert(d[x].contains(y));
    }
    if has_dep_cycle(d, t) {
        let (x, y) = choose|x: Seq<char>, y: Seq<char>|
            required(d, t, x) && d.contains_key(x) && #[trigger] d[x].contains(y) && depends_on(
                d,
                y,
                x,
            );
        assert(nn.contains(x));
        assert(nn.contains(y));
        let ui = choose|u: int| 0 <= u < nn.len() && nn[u] == x;
        let vi = choose|v: int| 0 <= v < nn.len() && nn[v] == y;
        let u = ui as usize;
        let v = vi as usize;
        lemma_reaches_match(d, t, nn, idx, succ, v, u);
        assert(edge(succ, u, v));
    }
}


/// The dependency graph of the names `nn`: node `k` is `nn[k]`, with an
/// edge to each of its dependencies in the order `d` lists them.
pub open spec fn name_graph(d: Map<Seq<char>, Seq<Seq<char>>>, nn: Seq<Seq<char>>) -> Seq<
    Seq<usize>,
> {
    Seq::new(nn.len(), |k: int| d[nn[k]].map_values(|y: Seq<char>| nn.index_of(y) as usize))
}

/// The successor lists in the order that `petgraph` lists them: the
/// successor added last first.
pub open spec fn rows_of(succ: Seq<Seq<usize>>) -> Seq<Seq<usize>> {
    Seq::new(succ.len(), |u: int| succ[u].reverse())
}

/// `cycle` names the cycle that the search (successors added last first)
/// finds, inside its component, from the node at which the topological sort
/// of the dependency graph of `nn` met a cycle.
pub open spec fn is_sorted_cycle(
    d: Map<Seq<char>, Seq<Seq<char>>>,
    nn: Seq<Seq<char>>,
    cycle: Seq<Seq<char>>,
) -> bool {
    exists|v: usize, ids: Seq<usize>|
        #![trigger cycle_from(rows_of(name_graph(d, nn)), component_of(name_graph(d, nn), v), false, v), names_of_ids(nn, ids)]
        v < nn.len() && toposort_of(nn.len(), edges_of(name_graph(d, nn))) == Err::<Seq<usize>, usize>(v)
            && on_cycle(name_graph(d, nn), v) && cycle_from(
            rows_of(name_graph(d, nn)),
            component_of(name_graph(d, nn), v),
            false,
            v,
        ) == Some(ids) && cycle == names_of_ids(nn, ids)
}

/// The names of the nodes `ids`.
pub open spec fn names_of_ids(nn: Seq<Seq<char>>, ids: Seq<usize>) -> Seq<Seq<char>> {
    ids.map_values(|v: usize| nn[v as int])
}

/// `cycle` names the cycle that the search (self-loops closing first) finds,
/// inside its component, from the node on a cycle of the dependency graph of
/// `nn` that finishes last in the first pass of Kosaraju's algorithm.
pub open spec fn is_found_cycle(
    d: Map<Seq<char>, Seq<Seq<char>>>,
    nn: Seq<Seq<char>>,
    cycle: Seq<Seq<char>>,
) -> bool {
    exists|x: usize, ids: Seq<usize>|
        #![trigger cycle_from(name_graph(d, nn), component_of(name_graph(d, nn), x), true, x), names_of_ids(nn, ids)]
        x < nn.len() && on_cycle(name_graph(d, nn), x) && last_on_cycle(name_graph(d, nn), x)
            && cycle_from(
            name_graph(d, nn),
            component_of(name_graph(d, nn), x),
            true,
            x,
        ) == Some(ids) && cycle == names_of_ids(nn, ids)
}

/// The graph built for the needed modules is their dependency graph, so a
/// cycle that the search finds in it is a found cycle of the names.
pub proof fn lemma_found_cycle(
    d: Map<Seq<char>, Seq<Seq<char>>>,
    t: Seq<Seq<char>>,
    nn: Seq<Seq<char>>,
    idx: Map<Seq<char>, usize>,
    succ: Seq<Seq<usize>>,
    x: usize,
    ids: Seq<usize>,
    cycle: Seq<Seq<char>>,
)
    requires
        is_needed_set(d, t, nn),
        is_dep_graph(d, nn, idx, succ),
        x < nn.len(),
        on_cycle(succ, x),
        last_on_cycle(succ, x),
        cycle_from(succ, component_of(succ, x), true, x) == Some(ids),
        cycle == names_of_ids(nn, ids),
    ensures
        is_found_cycle(d, nn, cycle),
{
    lemma_needed_closed(d, t, nn);
    let g = name_graph(d, nn);
    assert forall|k: int| 0 <= k < nn.len() implies #[trigger] succ[k] == g[k] by {
        let ys = d[nn[k]];
        assert forall|j: int| 0 <= j < ys.len() implies ids_of(idx, ys)[j] == g[k][j] by {
            assert(ys.contains(ys[j]));
            assert(nn.contains(nn[k]));
            assert(nn.contains(ys[j]));
            let m = choose|m: int| 0 <= m < nn.len() && nn[m] == ys[j];
            assert(idx[nn[m]] == m);
            assert(nn.contains(nn[m]));
            let i = nn.index_of(nn[m]);
            assert(nn[i] == nn[m]);
        }
        assert(ids_of(idx, ys) =~= g[k]);
    }
    assert(succ =~= g);
}


/// A path of the graph of the needed modules, distinct but for its closing
/// node, names a chain of dependencies, distinct but for its closing module.
pub proof fn lemma_path_names(
    d: Map<Seq<char>, Seq<Seq<char>>>,
    t: Seq<Seq<char>>,
    nn: Seq<Seq<char>>,
    idx: Map<Seq<char>, usize>,
    succ: Seq<Seq<usize>>,
    ids: Seq<usize>,
)
    requires
        is_needed_set(d, t, nn),
        is_dep_graph(d, nn, idx, succ),
        is_path(succ, ids),
        ids.drop_last().no_duplicates(),
    ensures
        dep_chain(d, names_of_ids(nn, ids)),
        names_of_ids(nn, ids).drop_last().no_duplicates(),
{
    lemma_edges_match(d, t, nn, idx, succ);
    lemma_needed_closed(d, t, nn);
    let names = names_of_ids(nn, ids);
    assert forall|i: int| 0 <= i < names.len() - 1 implies #[trigger] dep_step(d, names, i) by {
        assert(path_step(succ, ids, i));
        assert(edge(succ, ids[i], ids[i + 1]));
        assert(nn.contains(nn[ids[i] as int]));
    }
    assert forall|a: int, b: int|
        0 <= a < names.drop_last().len() && 0 <= b < names.drop_last().len() && a != b implies names.drop_last()[a]
        != names.drop_last()[b] by {
        assert(ids.drop_last()[a] != ids.drop_last()[b]);
        assert(ids[a] < nn.len() && ids[b] < nn.len());
    }
}

} // verus!
