//! The configuration of the process supervisor.
pub mod cycles;
pub mod dependency;
pub mod links;
pub mod probe;
pub mod process;
pub mod processes;
pub mod restart;

use vstd::prelude::*;

use vstd::hash_map::StringHashMap;

use crate::config::error::{Error, ValidationError, ValidationFault};
use crate::config::log_level::LogLevel;
use crate::graph::paths::{edge, is_path, reaches};
use crate::graph::search::{component_of, cycle_from, on_cycle};
use crate::modules::resolve::depends_on;
use crate::modules::graph_link::{
    lemma_path_names, names_of_ids, ids_of, is_dep_graph, lemma_cycle_match, lemma_reaches_match,
};
use cycles::{
    cycle_through, edges_of, edges_upto, out_targets, pg_add_edge, pg_add_node, pg_edges, pg_new, pg_nodes, pg_succ,
    pg_rows, pg_toposort, pg_weight, pg_wf, toposort_of,
};
use petgraph::graph::Graph;
use process::ProcessConfig;
use processes::{
    check_missing_dependencies, dependency_map, dependency_names, has_process_cycle,
    is_process_cycle, is_searched_cycle, lemma_searched_cycle, is_validation_result, names_at, process_rows, process_succ, lemma_index_of_unique, lemma_no_missing,
    lemma_processes_needed, lemma_total_dependencies_prefix, missing_fault, process_names,
    total_dependencies, validate_process_configs,
};

verus! {

/// The supervisor's configuration file.
#[derive(Clone, Debug, PartialEq, Eq)]
pub struct SuperviseConfig {
    pub version: String,
    pub log_level: LogLevel,
    /// The processes by name; each name occurs once.
    pub processes: Vec<(String, ProcessConfig)>,
    pub shutdown_timeout_secs: u64,
}

/// The default time the supervisor waits for processes at shutdown: a
/// minute.
pub fn default_shutdown_timeout_secs() -> (s: u64)
    ensures
        s == 60,
{
    60
}

/// The names of the cycle that the search finds through a process on a
/// cycle form a cycle of processes that all depend on one another.
proof fn lemma_reported_cycle(
    ps: Seq<(String, ProcessConfig)>,
    idx: Map<Seq<char>, usize>,
    node: usize,
    nodes: Seq<usize>,
    cv: Seq<Seq<char>>,
)
    requires
        process_names(ps).no_duplicates(),
        missing_fault(process_names(ps), ps) is None,
        is_dep_graph(dependency_map(ps), process_names(ps), idx, process_succ(ps)),
        node < ps.len(),
        toposort_of(ps.len(), edges_of(process_succ(ps))) == Err::<Seq<usize>, usize>(node),
        on_cycle(process_succ(ps), node),
        cycle_from(process_rows(ps), component_of(process_succ(ps), node), false, node) == Some(
            nodes,
        ),
        nodes.len() >= 2,
        nodes[0] == nodes.last(),
        forall|k: int| 0 <= k < nodes.len() ==> #[trigger] nodes[k] < ps.len(),
        forall|k1: int, k2: int|
            0 <= k1 < nodes.len() && 0 <= k2 < nodes.len() ==> reaches(
                process_succ(ps),
                #[trigger] nodes[k1],
                #[trigger] nodes[k2],
            ),
        cv == names_at(ps, nodes),
        is_path(process_succ(ps), nodes),
        nodes.drop_last().no_duplicates(),
    ensures
        is_process_cycle(ps, cv),
        is_searched_cycle(ps, cv),
{
    let d = dependency_map(ps);
    let nn = process_names(ps);
    let succ = process_succ(ps);
    lemma_processes_needed(ps);
    assert forall|k1: int| 0 <= k1 < cv.len() implies #[trigger] cv[k1] == nn[nodes[k1] as int]
        && nn.contains(cv[k1]) by {
        assert(nn.contains(nn[nodes[k1] as int]));
    }
    assert forall|k1: int, k2: int|
        0 <= k1 < cv.len() && 0 <= k2 < cv.len() implies depends_on(
        d,
        #[trigger] cv[k1],
        #[trigger] cv[k2],
    ) by {
        assert(cv[k1] == nn[nodes[k1] as int] && nn.contains(cv[k1]));
        assert(cv[k2] == nn[nodes[k2] as int] && nn.contains(cv[k2]));
        assert(reaches(succ, nodes[k1], nodes[k2]));
        lemma_reaches_match(d, nn, nn, idx, succ, nodes[k1], nodes[k2]);
    }
    assert(cv[0] == cv.last());
    lemma_searched_cycle(ps, node, nodes, cv);
    assert(cv =~= names_of_ids(nn, nodes));
    lemma_path_names(d, nn, nn, idx, succ, nodes);
}

/// The names of the processes on the cycle that the search finds through
/// `node`, which lies on a cycle of the dependency graph `graph` of `ps`.
fn cycle_names(
    graph: &Graph<String, ()>,
    node: usize,
    Ghost(ps): Ghost<Seq<(String, ProcessConfig)>>,
    Ghost(idx): Ghost<Map<Seq<char>, usize>>,
) -> (cycle: Vec<String>)
    requires
        process_names(ps).no_duplicates(),
        missing_fault(process_names(ps), ps) is None,
        pg_nodes(*graph) == process_names(ps),
        pg_wf(*graph),
        pg_succ(*graph) == process_succ(ps),
        pg_rows(*graph) == process_rows(ps),
        pg_edges(*graph) == edges_of(process_succ(ps)),
        toposort_of(pg_nodes(*graph).len(), pg_edges(*graph)) == Err::<Seq<usize>, usize>(node),
        is_dep_graph(dependency_map(ps), process_names(ps), idx, process_succ(ps)),
        node < pg_nodes(*graph).len(),
        exists|w: usize| #[trigger] edge(pg_succ(*graph), node, w) && reaches(pg_succ(*graph), w, node),
    ensures
        is_process_cycle(ps, cycle@.map_values(|x: String| x@)),
        is_searched_cycle(ps, cycle@.map_values(|x: String| x@)),
{
    let ghost nn = process_names(ps);
    let nodes = cycle_through(graph, node);
    let mut cycle: Vec<String> = Vec::new();
    let mut k: usize = 0;
    while k < nodes.len()
        invariant
            pg_nodes(*graph) == nn,
            forall|k2: int| 0 <= k2 < nodes@.len() ==> #[trigger] nodes@[k2] < nn.len(),
            k <= nodes@.len(),
            cycle@.len() == k,
            forall|k2: int| 0 <= k2 < k ==> #[trigger] cycle@[k2]@ == nn[nodes@[k2] as int],
        decreases nodes@.len() - k,
    {
        let w = pg_weight(graph, nodes[k]);
        cycle.push(w);
        k += 1;
    }
    proof {
        let cv = cycle@.map_values(|x: String| x@);
        assert(cv =~= names_at(ps, nodes@));
        lemma_reported_cycle(ps, idx, node, nodes@, cv);
    }
    cycle
}

impl SuperviseConfig {
    /// The configuration format version that is understood.
    pub open spec fn supported_version() -> Seq<char> {
        "1.0"@
    }

    /// Process names are distinct, as the keys of a map are, and the graph
    /// of processes and dependencies fits `petgraph`'s `u32` indices.
    pub open spec fn wf(self) -> bool {
        &&& process_names(self.processes@).no_duplicates()
        &&& self.processes@.len() < u32::MAX
        &&& total_dependencies(self.processes@) < u32::MAX
    }

    /// Checks the configuration: an unsupported version, else the first
    /// dependency that names no process, else a cycle of dependencies, else
    /// the first fault of a process.
    pub fn validate(&self) -> (r: Result<(), Error>)
        requires
            self.wf(),
        ensures
            if self.version@ != Self::supported_version() {
                r matches Err(Error::Validate { source }) && source@
                    == (ValidationFault::InvalidVersion { version: self.version@ })
            } else {
                is_validation_result(self.processes@, r)
            },
            self.version@ == Self::supported_version() && missing_fault(
                process_names(self.processes@),
                self.processes@,
            ) is None && has_process_cycle(self.processes@) ==> (r matches Err(
                Error::Validate { source },
            ) && (source@ matches ValidationFault::CyclicDependency { cycle }
                && is_searched_cycle(self.processes@, cycle))),
    {
        match self.check_version() {
            Ok(()) => {},
            Err(e) => {
                return Err(e);
            },
        }
        match check_missing_dependencies(&self.processes) {
            Ok(()) => {},
            Err(e) => {
                return Err(e);
            },
        }
        match self.detect_dependency_cycles() {
            Ok(()) => {},
            Err(e) => {
                return Err(e);
            },
        }
        validate_process_configs(&self.processes)
    }

    /// The dependency graph of the processes in `petgraph`: node `k` is the
    /// `k`-th process, with an edge to each of its dependencies in turn.
    #[verifier::rlimit(40)]
    fn process_graph(&self) -> (r: (Graph<String, ()>, Ghost<Map<Seq<char>, usize>>))
        requires
            self.wf(),
            missing_fault(process_names(self.processes@), self.processes@) is None,
        ensures
            pg_nodes(r.0) == process_names(self.processes@),
            pg_wf(r.0),
            is_dep_graph(
                dependency_map(self.processes@),
                process_names(self.processes@),
                r.1@,
                pg_succ(r.0),
            ),
            pg_succ(r.0) == process_succ(self.processes@),
            pg_rows(r.0) == process_rows(self.processes@),
            pg_edges(r.0) == edges_of(process_succ(self.processes@)),
    {
        let ps = &self.processes;
        let ghost d = dependency_map(ps@);
        let ghost nn = process_names(ps@);
        proof {
            lemma_processes_needed(ps@);
            lemma_no_missing(nn, ps@);
        }
        let mut graph = pg_new();
        let mut indices: StringHashMap<usize> = StringHashMap::new();
        let mut i: usize = 0;
        while i < ps.len()
            invariant
                nn == process_names(ps@),
                nn.no_duplicates(),
                nn.len() < u32::MAX,
                i <= nn.len(),
                pg_nodes(graph) == nn.take(i as int),
                pg_edges(graph) == Seq::<(usize, usize)>::empty(),
                forall|k: int|
                    #![trigger nn[k]]
                    0 <= k < i ==> indices@.contains_key(nn[k]) && indices@[nn[k]] == k,
                forall|x: Seq<char>| #[trigger] indices@.contains_key(x) ==> nn.take(i as int).contains(x),
            decreases nn.len() - i,
        {
            let ghost before = indices@;
            let id = pg_add_node(&mut graph, ps[i].0.clone());
            indices.insert(ps[i].0.clone(), id);
            proof {
                assert(nn[i as int] == ps@[i as int].0@);
                assert(nn.take(i + 1) =~= nn.take(i as int).push(nn[i as int]));
                assert forall|k: int| #![trigger nn[k]] 0 <= k < i + 1 implies indices@.contains_key(
                    nn[k],
                ) && indices@[nn[k]] == k by {
                    if k < i {
                        assert(nn[k] != nn[i as int]);
                        assert(before.contains_key(nn[k]));
                    }
                }
                assert forall|x: Seq<char>| #[trigger] indices@.contains_key(x) implies nn.take(
                    i + 1,
                ).contains(x) by {
                    if x == nn[i as int] {
                        assert(nn.take(i + 1)[i as int] == x);
                    } else {
                        assert(before.contains_key(x));
                        let k = choose|k: int| 0 <= k < i && nn.take(i as int)[k] == x;
                        assert(nn.take(i + 1)[k] == x);
                    }
                }
            }
            i += 1;
        }
        proof {
            assert(nn.take(nn.len() as int) =~= nn);
        }
        let ghost idx = indices@;
        let ghost psucc = process_succ(ps@);
        let mut i: usize = 0;
        proof {
            assert(ps@.take(0) =~= Seq::<(String, ProcessConfig)>::empty());
        }
        while i < ps.len()
            invariant
                psucc == process_succ(ps@),
                pg_edges(graph) == edges_upto(psucc, i as int),
                d == dependency_map(ps@),
                nn == process_names(ps@),
                nn.no_duplicates(),
                nn.len() < u32::MAX,
                total_dependencies(ps@) < u32::MAX,
                forall|k: int, j: int|
                    0 <= k < ps@.len() && 0 <= j < dependency_names(ps@[k].1).len() ==> nn.contains(
                        #[trigger] dependency_names(ps@[k].1)[j],
                    ),
                i <= nn.len(),
                indices@ == idx,
                pg_nodes(graph) == nn,
                pg_edges(graph).len() == total_dependencies(ps@.take(i as int)),
                pg_wf(graph),
                forall|k: int|
                    #![trigger nn[k]]
                    0 <= k < nn.len() ==> idx.contains_key(nn[k]) && idx[nn[k]] == k,
                forall|u: usize|
                    u < i ==> #[trigger] out_targets(pg_edges(graph), u) == ids_of(
                        idx,
                        dependency_names(ps@[u as int].1),
                    ),
                forall|u: usize|
                    i <= u ==> #[trigger] out_targets(pg_edges(graph), u) == Seq::<usize>::empty(),
            decreases nn.len() - i,
        {
            proof {
                assert(nn[i as int] == ps@[i as int].0@);
                lemma_total_dependencies_prefix(ps@, i as int);
            }
            let from = match indices.get(ps[i].0.as_str()) {
                Some(id) => *id,
                None => {
                    proof {
                        assert(idx.contains_key(nn[i as int]));
                    }
                    return (graph, Ghost(idx));
                },
            };
            let deps = &ps[i].1.depends_on;
            let ghost dn = dependency_names(ps@[i as int].1);
            let ghost e0 = pg_edges(graph);
            let mut j: usize = 0;
            proof {
                assert(dn.take(0) =~= Seq::<Seq<char>>::empty());
                assert(psucc[i as int].take(0).map_values(|t: usize| (i, t)) =~= Seq::<
                    (usize, usize),
                >::empty());
                assert(e0 + Seq::<(usize, usize)>::empty() =~= e0);
            }
            while j < deps.len()
                invariant
                    psucc == process_succ(ps@),
                    nn.no_duplicates(),
                    e0 == edges_upto(psucc, i as int),
                    psucc[i as int].len() == dn.len(),
                    pg_edges(graph) == e0 + psucc[i as int].take(j as int).map_values(
                        |t: usize| (i, t),
                    ),
                    nn == process_names(ps@),
                    i < nn.len(),
                    from == i,
                    deps == ps@[i as int].1.depends_on,
                    dn == dependency_names(ps@[i as int].1),
                    forall|j2: int| 0 <= j2 < dn.len() ==> nn.contains(#[trigger] dn[j2]),
                    j <= deps@.len(),
                    indices@ == idx,
                    pg_nodes(graph) == nn,
                    pg_edges(graph).len() == e0.len() + j,
                    e0.len() + deps@.len() < u32::MAX,
                    pg_wf(graph),
                    forall|k: int|
                        #![trigger nn[k]]
                        0 <= k < nn.len() ==> idx.contains_key(nn[k]) && idx[nn[k]] == k,
                    forall|u: usize|
                        u != i ==> #[trigger] out_targets(pg_edges(graph), u) == out_targets(e0, u),
                    out_targets(e0, i) == Seq::<usize>::empty(),
                    out_targets(pg_edges(graph), i) == ids_of(idx, dn.take(j as int)),
                decreases deps@.len() - j,
            {
                let ghost y = dn[j as int];
                proof {
                    assert(y == deps@[j as int].0@);
                    assert(nn.contains(y));
                }
                let to = match indices.get(deps[j].0.as_str()) {
                    Some(id) => *id,
                    None => {
                        proof {
                            let m = choose|m: int| 0 <= m < nn.len() && nn[m] == y;
                            assert(idx.contains_key(nn[m]));
                        }
                        return (graph, Ghost(idx));
                    },
                };
                proof {
                    let m = choose|m: int| 0 <= m < nn.len() && nn[m] == y;
                    assert(idx.contains_key(nn[m]) && idx[nn[m]] == m);
                    assert(to == idx[y]);
                    lemma_index_of_unique(nn, m);
                    assert(psucc[i as int][j as int] == to);
                    assert(psucc[i as int].take(j + 1).map_values(|t: usize| (i, t)) =~= psucc[i as int].take(
                        j as int,
                    ).map_values(|t: usize| (i, t)).push((i, to)));
                    assert(e0 + psucc[i as int].take(j + 1).map_values(|t: usize| (i, t)) =~= (e0
                        + psucc[i as int].take(j as int).map_values(|t: usize| (i, t))).push((i, to)));
                }
                let ghost eb = pg_edges(graph);
                pg_add_edge(&mut graph, from, to);
                proof {
                    let ea = pg_edges(graph);
                    assert(ea.drop_last() =~= eb);
                    assert forall|u: usize| u != i implies #[trigger] out_targets(ea, u) == out_targets(
                        e0,
                        u,
                    ) by {
                        assert(out_targets(ea, u) == out_targets(eb, u));
                    }
                    assert(out_targets(ea, i) == out_targets(eb, i).push(to));
                    assert(dn.take(j + 1) =~= dn.take(j as int).push(y));
                    assert(ids_of(idx, dn.take(j + 1)) =~= ids_of(idx, dn.take(j as int)).push(
                        idx[y],
                    ));
                    assert forall|k: int|
                        #![trigger ea[k]]
                        0 <= k < ea.len() implies ea[k].0 < nn.len() && ea[k].1 < nn.len() by {
                        if k < eb.len() {
                            assert(ea[k] == eb[k]);
                        }
                    }
                }
                j += 1;
            }
            proof {
                assert(dn.take(deps@.len() as int) =~= dn);
                assert(deps@.len() == ps@[i as int].1.depends_on@.len());
                assert(psucc[i as int].take(dn.len() as int) =~= psucc[i as int]);
                assert(edges_upto(psucc, i + 1) == edges_upto(psucc, i as int) + psucc[i as int].map_values(
                    |t: usize| (i, t),
                ));
            }
            i += 1;
        }
        proof {
            assert(ps@.take(ps@.len() as int) =~= ps@);
            let succ = pg_succ(graph);
            assert forall|k: int| 0 <= k < nn.len() implies #[trigger] succ[k] == ids_of(
                idx,
                d[nn[k]],
            ) by {
                lemma_index_of_unique(nn, k);
                assert(nn.contains(nn[k]));
                assert(nn[k] == ps@[k].0@);
                assert(succ[k] == out_targets(pg_edges(graph), k as usize));
            }
            assert(is_dep_graph(d, nn, idx, succ));
            let psucc = process_succ(ps@);
            assert forall|k: int| 0 <= k < nn.len() implies #[trigger] succ[k] == psucc[k] by {
                let dn = dependency_names(ps@[k].1);
                assert(succ[k] == out_targets(pg_edges(graph), k as usize));
                assert(succ[k] == ids_of(idx, dn));
                assert forall|j: int| 0 <= j < dn.len() implies ids_of(idx, dn)[j] == psucc[k][j] by {
                    assert(nn.contains(dn[j]));
                    let m = choose|m: int| 0 <= m < nn.len() && nn[m] == dn[j];
                    lemma_index_of_unique(nn, m);
                    assert(idx.contains_key(nn[m]) && idx[nn[m]] == m);
                }
                assert(ids_of(idx, dn) =~= psucc[k]);
            }
            assert(succ =~= psucc);
            assert(pg_rows(graph) =~= process_rows(ps@));
        }
        (graph, Ghost(idx))
    }

    /// A cycle of dependencies among the processes, found with `petgraph`:
    /// its topological sort tells whether there is one and names a process
    /// on it, through which a cycle is then sought.
    #[verifier::rlimit(30)]
    fn detect_dependency_cycles(&self) -> (r: Result<(), Error>)
        requires
            self.wf(),
            missing_fault(process_names(self.processes@), self.processes@) is None,
        ensures
            match r {
                Ok(()) => !has_process_cycle(self.processes@),
                Err(Error::Validate { source }) => {
                    &&& has_process_cycle(self.processes@)
                    &&& source@ matches ValidationFault::CyclicDependency { cycle }
                        && is_process_cycle(self.processes@, cycle) && is_searched_cycle(
                        self.processes@,
                        cycle,
                    )
                },
                Err(_) => false,
            },
    {
        let ghost ps = self.processes@;
        let ghost d = dependency_map(ps);
        let ghost nn = process_names(ps);
        let (graph, Ghost(idx)) = self.process_graph();
        let ghost succ = pg_succ(graph);
        proof {
            lemma_processes_needed(ps);
            lemma_cycle_match(d, nn, nn, idx, succ);
        }
        match pg_toposort(&graph) {
            Ok(_) => Ok(()),
            Err(node) => {
                let cycle = cycle_names(&graph, node, Ghost(ps), Ghost(idx));
                Err(Error::Validate { source: ValidationError::CyclicDependency { cycle } })
            },
        }
    }

    fn check_version(&self) -> (r: Result<(), Error>)
        ensures
            if self.version@ != Self::supported_version() {
                r matches Err(Error::Validate { source }) && source@
                    == (ValidationFault::InvalidVersion { version: self.version@ })
            } else {
                r is Ok
            },
    {
        let supported = String::from_str("1.0");
        if self.version == supported {
            Ok(())
        } else {
            Err(Error::Validate { source: ValidationError::InvalidVersion { version: self.version.clone() } })
        }
    }
}

} // verus!
