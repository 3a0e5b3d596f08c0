//! The dependency lists handed to the supervisors: for each process, the
//! processes it depends on, read back from a `petgraph` `StableGraph` with an
//! edge from each dependency to its dependent.
use vstd::prelude::*;
use vstd::hash_map::StringHashMap;

use petgraph::stable_graph::StableGraph;

use super::dependency::DependencyCondition;
use super::process::ProcessConfig;
use super::processes::{dependency_names, process_names, total_dependencies, lemma_total_dependencies_prefix};

verus! {

#[verifier::external_type_specification]
#[verifier::external_body]
#[verifier::reject_recursive_types(N)]
#[verifier::reject_recursive_types(E)]
#[verifier::reject_recursive_types(Ty)]
#[verifier::reject_recursive_types(Ix)]
pub struct ExStableGraph<N, E, Ty, Ix>(StableGraph<N, E, Ty, Ix>);

/// The weights of the nodes of a stable graph without removals, by index.
pub uninterp spec fn sg_nodes(g: StableGraph<String, ()>) -> Seq<Seq<char>>;

/// The edges of a stable graph, in the order they were added.
pub uninterp spec fn sg_edges(g: StableGraph<String, ()>) -> Seq<(usize, usize)>;

/// The sources of the edges into `v`, in the order the edges were added.
pub open spec fn in_sources(edges: Seq<(usize, usize)>, v: usize) -> Seq<usize>
    decreases edges.len(),
{
    if edges.len() == 0 {
        Seq::empty()
    } else {
        let r = in_sources(edges.drop_last(), v);
        if edges.last().1 == v {
            r.push(edges.last().0)
        } else {
            r
        }
    }
}

/// `StableGraph::new`: a graph without nodes or edges.
#[verifier::external_body]
fn sg_new() -> (g: StableGraph<String, ()>)
    ensures
        sg_nodes(g) == Seq::<Seq<char>>::empty(),
        sg_edges(g) == Seq::<(usize, usize)>::empty(),
{
    StableGraph::new()
}

/// `StableGraph::add_node`: with nothing ever removed, the new node takes the
/// next index; it panics once `u32` indices run out.
#[verifier::external_body]
fn sg_add_node(g: &mut StableGraph<String, ()>, w: String) -> (i: usize)
    requires
        sg_nodes(*old(g)).len() < u32::MAX,
    ensures
        i == sg_nodes(*old(g)).len(),
        sg_nodes(*final(g)) == sg_nodes(*old(g)).push(w@),
        sg_edges(*final(g)) == sg_edges(*old(g)),
{
    g.add_node(w).index()
}

/// `StableGraph::add_edge`: adds an edge `a -> b` after the others; it
/// panics for a node that does not exist or once `u32` indices run out.
#[verifier::external_body]
fn sg_add_edge(g: &mut StableGraph<String, ()>, a: usize, b: usize)
    requires
        a < sg_nodes(*old(g)).len(),
        b < sg_nodes(*old(g)).len(),
        sg_edges(*old(g)).len() < u32::MAX,
    ensures
        sg_nodes(*final(g)) == sg_nodes(*old(g)),
        sg_edges(*final(g)) == sg_edges(*old(g)).push((a, b)),
{
    let _ = g.add_edge(
        petgraph::stable_graph::NodeIndex::new(a),
        petgraph::stable_graph::NodeIndex::new(b),
        (),
    );
}

/// The weight of node `i` (`graph[i]`), which must exist.
#[verifier::external_body]
fn sg_weight(g: &StableGraph<String, ()>, i: usize) -> (w: String)
    requires
        i < sg_nodes(*g).len(),
    ensures
        w@ == sg_nodes(*g)[i as int],
{
    g[petgraph::stable_graph::NodeIndex::new(i)].clone()
}

/// `StableGraph::neighbors_directed(v, Incoming)`: the sources of the edges
/// into `v`, the most recently added first.
#[verifier::external_body]
fn sg_incoming(g: &StableGraph<String, ()>, v: usize) -> (ns: Vec<usize>)
    requires
        v < sg_nodes(*g).len(),
    ensures
        ns@ == in_sources(sg_edges(*g), v).reverse(),
{
    g.neighbors_directed(petgraph::stable_graph::NodeIndex::new(v), petgraph::Direction::Incoming).map(
        |n| n.index(),
    ).collect()
}

/// The dependencies `deps` that name one of `names`, in order.
pub open spec fn existing_deps(names: Seq<Seq<char>>, deps: Seq<Seq<char>>) -> Seq<Seq<char>>
    decreases deps.len(),
{
    if deps.len() == 0 {
        Seq::empty()
    } else {
        let r = existing_deps(names, deps.drop_last());
        if names.contains(deps.last()) {
            r.push(deps.last())
        } else {
            r
        }
    }
}

/// The condition of the first dependency of `p` on `y`.
pub open spec fn condition_of(p: ProcessConfig, y: Seq<char>) -> Option<DependencyCondition> {
    let k = choose|k: int|
        0 <= k < p.depends_on@.len() && p.depends_on@[k].0@ == y && forall|j: int|
            0 <= j < k ==> p.depends_on@[j].0@ != y;
    p.depends_on@[k].1.condition
}

/// The dependencies of process `k` that name a process, the last listed
/// first: the order in which the graph gives back the edges into it.
pub open spec fn linked_deps(ps: Seq<(String, ProcessConfig)>, k: int) -> Seq<Seq<char>> {
    existing_deps(process_names(ps), dependency_names(ps[k].1)).reverse()
}

/// The node ids of the names `ys` among `names`.
pub open spec fn ids_in(names: Seq<Seq<char>>, ys: Seq<Seq<char>>) -> Seq<usize> {
    ys.map_values(|y: Seq<char>| names.index_of(y) as usize)
}

/// For each process, its name and its dependencies on processes, each with
/// its condition, listed as the dependency graph gives them back: the last
/// listed first. Dependencies that name no process are left out.
pub fn supervisor_dependencies(ps: &Vec<(String, ProcessConfig)>) -> (v: Vec<
    (String, Vec<(String, Option<DependencyCondition>)>),
>)
    requires
        process_names(ps@).no_duplicates(),
        ps@.len() < u32::MAX,
        total_dependencies(ps@) < u32::MAX,
    ensures
        v@.len() == ps@.len(),
        forall|k: int|
            0 <= k < ps@.len() ==> {
                &&& (#[trigger] v@[k]).0@ == process_names(ps@)[k]
                &&& v@[k].1@.len() == linked_deps(ps@, k).len()
                &&& forall|j: int|
                    0 <= j < v@[k].1@.len() ==> (#[trigger] v@[k].1@[j]).0@ == linked_deps(ps@, k)[j]
                        && v@[k].1@[j].1 == condition_of(ps@[k].1, linked_deps(ps@, k)[j])
            },
{
    let ghost nn = process_names(ps@);
    let mut graph = sg_new();
    let mut indices: StringHashMap<usize> = StringHashMap::new();
    let mut i: usize = 0;
    while i < ps.len()
        invariant
            nn == process_names(ps@),
            nn.no_duplicates(),
            nn.len() < u32::MAX,
            i <= nn.len(),
            sg_nodes(graph) == nn.take(i as int),
            sg_edges(graph) == Seq::<(usize, usize)>::empty(),
            forall|k: int|
                #![trigger nn[k]]
                0 <= k < i ==> indices@.contains_key(nn[k]) && indices@[nn[k]] == k,
            forall|x: Seq<char>| #[trigger] indices@.contains_key(x) ==> nn.take(i as int).contains(x),
        decreases nn.len() - i,
    {
        let ghost before = indices@;
        let id = sg_add_node(&mut graph, ps[i].0.clone());
        indices.insert(ps[i].0.clone(), id);
        proof {
            assert(nn[i as int] == ps@[i as int].0@);
            assert(nn.take(i + 1) =~= nn.take(i as int).push(nn[i as int]));
            assert forall|k: int| #![trigger nn[k]] 0 <= k < i + 1 implies indices@.contains_key(
                nn[k],
            ) && indices@[nn[k]] == k by {
                if k < i {
                    assert(nn[k] != nn[i as int]);
                    assert(before.contains_key(nn[k]));
                }
            }
            assert forall|x: Seq<char>| #[trigger] indices@.contains_key(x) implies nn.take(
                i + 1,
            ).contains(x) by {
                if x == nn[i as int] {
                    assert(nn.take(i + 1)[i as int] == x);
                } else {
                    assert(before.contains_key(x));
                    let k = choose|k: int| 0 <= k < i && nn.take(i as int)[k] == x;
                    assert(nn.take(i + 1)[k] == x);
                }
            }
        }
        i += 1;
    }
    proof {
        assert(nn.take(nn.len() as int) =~= nn);
    }
    let ghost idx = indices@;
    let mut i: usize = 0;
    proof {
        assert(ps@.take(0) =~= Seq::<(String, ProcessConfig)>::empty());
    }
    while i < ps.len()
        invariant
            nn == process_names(ps@),
            nn.no_duplicates(),
            total_dependencies(ps@) < u32::MAX,
            i <= nn.len(),
            indices@ == idx,
            sg_nodes(graph) == nn,
            sg_edges(graph).len() <= total_dependencies(ps@.take(i as int)),
            forall|k: int|
                #![trigger nn[k]]
                0 <= k < nn.len() ==> idx.contains_key(nn[k]) && idx[nn[k]] == k,
            forall|x: Seq<char>| #[trigger] idx.contains_key(x) ==> nn.contains(x),
            forall|u: usize|
                u < i ==> #[trigger] in_sources(sg_edges(graph), u) == ids_in(
                    nn,
                    existing_deps(nn, dependency_names(ps@[u as int].1)),
                ),
            forall|u: usize|
                i <= u ==> #[trigger] in_sources(sg_edges(graph), u) == Seq::<usize>::empty(),
        decreases nn.len() - i,
    {
        proof {
            lemma_total_dependencies_prefix(ps@, i as int);
        }
        let deps = &ps[i].1.depends_on;
        let ghost dn = dependency_names(ps@[i as int].1);
        let ghost e0 = sg_edges(graph);
        let mut j: usize = 0;
        proof {
            assert(dn.take(0) =~= Seq::<Seq<char>>::empty());
        }
        while j < deps.len()
            invariant
                nn == process_names(ps@),
                nn.no_duplicates(),
                i < nn.len(),
                deps == ps@[i as int].1.depends_on,
                dn == dependency_names(ps@[i as int].1),
                j <= deps@.len(),
                indices@ == idx,
                sg_nodes(graph) == nn,
                sg_edges(graph).len() <= e0.len() + j,
                e0.len() + deps@.len() < u32::MAX,
                forall|k: int|
                    #![trigger nn[k]]
                    0 <= k < nn.len() ==> idx.contains_key(nn[k]) && idx[nn[k]] == k,
                forall|x: Seq<char>| #[trigger] idx.contains_key(x) ==> nn.contains(x),
                forall|u: usize|
                    u != i ==> #[trigger] in_sources(sg_edges(graph), u) == in_sources(e0, u),
                in_sources(e0, i) == Seq::<usize>::empty(),
                in_sources(sg_edges(graph), i) == ids_in(nn, existing_deps(nn, dn.take(j as int))),
            decreases deps@.len() - j,
        {
            let ghost y = dn[j as int];
            proof {
                assert(y == deps@[j as int].0@);
                assert(dn.take(j + 1).drop_last() =~= dn.take(j as int));
                assert(dn.take(j + 1).last() == y);
            }
            match indices.get(deps[j].0.as_str()) {
                Some(d) => {
                    let from = *d;
                    proof {
                        assert(nn.contains(y));
                        let m = choose|m: int| 0 <= m < nn.len() && nn[m] == y;
                        assert(idx.contains_key(nn[m]) && idx[nn[m]] == m);
                        assert(from == m);
                        assert(nn.contains(nn[m]));
                        let t = nn.index_of(nn[m]);
                        assert(nn[t] == nn[m]);
                    }
                    let ghost eb = sg_edges(graph);
                    sg_add_edge(&mut graph, from, i);
                    proof {
                        let ea = sg_edges(graph);
                        assert(ea.drop_last() =~= eb);
                        assert forall|u: usize| u != i implies #[trigger] in_sources(ea, u)
                            == in_sources(e0, u) by {
                            assert(in_sources(ea, u) == in_sources(eb, u));
                        }
                        assert(in_sources(ea, i) == in_sources(eb, i).push(from));
                        assert(ids_in(nn, existing_deps(nn, dn.take(j + 1))) =~= ids_in(
                            nn,
                            existing_deps(nn, dn.take(j as int)),
                        ).push(from));
                    }
                },
                None => {
                    proof {
                        assert(!nn.contains(y));
                        assert(existing_deps(nn, dn.take(j + 1)) == existing_deps(nn, dn.take(j as int)));
                    }
                },
            }
            j += 1;
        }
        proof {
            assert(dn.take(deps@.len() as int) =~= dn);
            assert(deps@.len() == ps@[i as int].1.depends_on@.len());
        }
        i += 1;
    }
    proof {
        assert(ps@.take(ps@.len() as int) =~= ps@);
    }
    let mut result: Vec<(String, Vec<(String, Option<DependencyCondition>)>)> = Vec::new();
    let mut k: usize = 0;
    while k < ps.len()
        invariant
            nn == process_names(ps@),
            nn.no_duplicates(),
            k <= ps@.len(),
            sg_nodes(graph) == nn,
            forall|u: usize|
                u < ps@.len() ==> #[trigger] in_sources(sg_edges(graph), u) == ids_in(
                    nn,
                    existing_deps(nn, dependency_names(ps@[u as int].1)),
                ),
            result@.len() == k,
            forall|k2: int|
                0 <= k2 < k ==> {
                    &&& (#[trigger] result@[k2]).0@ == nn[k2]
                    &&& result@[k2].1@.len() == linked_deps(ps@, k2).len()
                    &&& forall|j: int|
                        0 <= j < result@[k2].1@.len() ==> (#[trigger] result@[k2].1@[j]).0@
                            == linked_deps(ps@, k2)[j] && result@[k2].1@[j].1 == condition_of(
                            ps@[k2].1,
                            linked_deps(ps@, k2)[j],
                        )
                },
        decreases ps@.len() - k,
    {
        let ghost ex = existing_deps(nn, dependency_names(ps@[k as int].1));
        let ghost lk = linked_deps(ps@, k as int);
        let incoming = sg_incoming(&graph, k);
        proof {
            assert(nn[k as int] == ps@[k as int].0@);
            lemma_existing_in(nn, dependency_names(ps@[k as int].1));
            assert(incoming@ == ids_in(nn, ex).reverse());
            assert(lk == ex.reverse());
            let p = ps@[k as int].1;
            assert forall|j2: int| 0 <= j2 < lk.len() implies #[trigger] incoming@[j2] < nn.len()
                && nn[incoming@[j2] as int] == lk[j2] by {
                let jj = ex.len() - 1 - j2;
                assert(lk[j2] == ex[jj]);
                assert(incoming@[j2] == ids_in(nn, ex)[jj]);
            }
            assert forall|j2: int| #![trigger lk[j2]] 0 <= j2 < lk.len() implies exists|m: int|
                0 <= m < p.depends_on@.len() && #[trigger] p.depends_on@[m].0@ == lk[j2] by {
                let jj = ex.len() - 1 - j2;
                assert(lk[j2] == ex[jj]);
                assert(dependency_names(p).contains(ex[jj]));
                let m = choose|m: int| 0 <= m < dependency_names(p).len() && dependency_names(p)[m] == ex[jj];
                assert(p.depends_on@[m].0@ == ex[jj]);
            }
        }
        let mut deps: Vec<(String, Option<DependencyCondition>)> = Vec::new();
        let mut j: usize = 0;
        while j < incoming.len()
            invariant
                nn == process_names(ps@),
                nn.no_duplicates(),
                k < ps@.len(),
                sg_nodes(graph) == nn,
                lk == linked_deps(ps@, k as int),
                incoming@.len() == lk.len(),
                forall|j2: int|
                    0 <= j2 < lk.len() ==> #[trigger] incoming@[j2] < nn.len() && nn[incoming@[j2] as int]
                        == lk[j2],
                forall|j2: int|
                    #![trigger lk[j2]]
                    0 <= j2 < lk.len() ==> exists|m: int|
                        0 <= m < ps@[k as int].1.depends_on@.len() && #[trigger] ps@[k as int].1.depends_on@[m].0@
                            == lk[j2],
                j <= incoming@.len(),
                deps@.len() == j,
                forall|j2: int|
                    0 <= j2 < j ==> (#[trigger] deps@[j2]).0@ == lk[j2] && deps@[j2].1 == condition_of(
                        ps@[k as int].1,
                        lk[j2],
                    ),
            decreases incoming@.len() - j,
        {
            let name = sg_weight(&graph, incoming[j]);
            let cond = first_condition(&ps[k].1, &name);
            deps.push((name, cond));
            j += 1;
        }
        result.push((ps[k].0.clone(), deps));
        k += 1;
    }
    result
}

/// The names of existing dependencies are names, so their ids find them.
proof fn lemma_existing_in(names: Seq<Seq<char>>, deps: Seq<Seq<char>>)
    requires
        names.no_duplicates(),
    ensures
        forall|j: int|
            0 <= j < existing_deps(names, deps).len() ==> names.contains(
                #[trigger] existing_deps(names, deps)[j],
            ) && (names.index_of(existing_deps(names, deps)[j]) as usize) < names.len() && names[names.index_of(
                existing_deps(names, deps)[j],
            )] == existing_deps(names, deps)[j] && deps.contains(existing_deps(names, deps)[j]),
    decreases deps.len(),
{
    if deps.len() > 0 {
        lemma_existing_in(names, deps.drop_last());
        let r = existing_deps(names, deps.drop_last());
        let e = existing_deps(names, deps);
        assert forall|j: int| 0 <= j < e.len() implies names.contains(#[trigger] e[j]) && (names.index_of(
            e[j],
        ) as usize) < names.len() && names[names.index_of(e[j])] == e[j] && deps.contains(e[j]) by {
            if j < r.len() {
                assert(e[j] == r[j]);
                assert(deps.drop_last().contains(r[j]));
                let m = choose|m: int| 0 <= m < deps.drop_last().len() && deps.drop_last()[m] == r[j];
                assert(deps[m] == r[j]);
            } else {
                assert(e[j] == deps.last());
                assert(deps[deps.len() - 1] == e[j]);
            }
            let t = names.index_of(e[j]);
            assert(0 <= t < names.len() && names[t] == e[j]);
        }
    }
}

/// The condition of the first dependency of `p` named `name`, if any.
fn first_condition(p: &ProcessConfig, name: &String) -> (c: Option<DependencyCondition>)
    requires
        exists|m: int| 0 <= m < p.depends_on@.len() && #[trigger] p.depends_on@[m].0@ == name@,
    ensures
        c == condition_of(*p, name@),
{
    let mut i: usize = 0;
    while i < p.depends_on.len()
        invariant
            i <= p.depends_on@.len(),
            forall|j: int| 0 <= j < i ==> p.depends_on@[j].0@ != name@,
            exists|m: int| 0 <= m < p.depends_on@.len() && #[trigger] p.depends_on@[m].0@ == name@,
        decreases p.depends_on@.len() - i,
    {
        if p.depends_on[i].0 == *name {
            proof {
                assert(p.depends_on@[i as int].0@ == name@);
                assert(exists|k: int|
                    0 <= k < p.depends_on@.len() && p.depends_on@[k].0@ == name@ && forall|j: int|
                        0 <= j < k ==> p.depends_on@[j].0@ != name@);
                let k = choose|k: int|
                    0 <= k < p.depends_on@.len() && p.depends_on@[k].0@ == name@ && forall|j: int|
                        0 <= j < k ==> p.depends_on@[j].0@ != name@;
                assert(k == i as int) by {
                    if k < i {
                    } else if k > i {
                        assert(p.depends_on@[i as int].0@ == name@);
                    }
                }
            }
            return p.depends_on[i].1.condition;
        }
        i += 1;
    }
    proof {
        let m = choose|m: int| 0 <= m < p.depends_on@.len() && #[trigger] p.depends_on@[m].0@ == name@;
        assert(p.depends_on@[m].0@ != name@);
    }
    None
}

} // verus!
