//! Rules on a set of named processes: dependencies that name no process,
//! cycles of dependencies, and the faults of each process.
use vstd::prelude::*;

use crate::config::error::{Error, ValidationError, ValidationFault};
use crate::graph::{DiGraph, GraphModel};
use crate::graph::order::{closed_ids, labels_of, last_on_cycle};
use crate::graph::paths::{is_path, reaches};
use crate::graph::search::{component_of, cycle_from, on_cycle};
use crate::modules::graph_link::{
    is_found_cycle, lemma_found_cycle, lemma_path_names, names_of_ids, ids_of, is_dep_graph, is_needed_set, lemma_cycle_match, lemma_reaches_match,
};
use crate::modules::resolve::{
    dep_chain, dep_step, depends_on, has_dep_cycle, lemma_closed_holds_chain, lemma_depends_refl,
    required,
};
use super::cycles::{edges_of, toposort_of};
use super::process::{first_fault, ProcessConfig};

verus! {

/// The names of the processes, in order.
pub open spec fn process_names(ps: Seq<(String, ProcessConfig)>) -> Seq<Seq<char>> {
    ps.map_values(|p: (String, ProcessConfig)| p.0@)
}

/// The names of the processes that `p` depends on, in order.
pub open spec fn dependency_names(p: ProcessConfig) -> Seq<Seq<char>> {
    p.depends_on@.map_values(|d: (String, super::dependency::DependencyConfig)| d.0@)
}

/// Each process name maps to the names of its dependencies.
pub open spec fn dependency_map(ps: Seq<(String, ProcessConfig)>) -> Map<Seq<char>, Seq<Seq<char>>> {
    Map::new(
        |x: Seq<char>| process_names(ps).contains(x),
        |x: Seq<char>| dependency_names(ps[process_names(ps).index_of(x)].1),
    )
}

/// The names among `ys` that name a process, in order.
pub open spec fn known_names(ps: Seq<(String, ProcessConfig)>, ys: Seq<Seq<char>>) -> Seq<Seq<char>> {
    ys.filter(|y: Seq<char>| process_names(ps).contains(y))
}

/// Each process name maps to those of its dependencies that name a process,
/// in the order listed: the edges that the graph of the processes keeps.
pub open spec fn known_dependency_map(ps: Seq<(String, ProcessConfig)>) -> Map<
    Seq<char>,
    Seq<Seq<char>>,
> {
    Map::new(
        |x: Seq<char>| process_names(ps).contains(x),
        |x: Seq<char>| known_names(ps, dependency_names(ps[process_names(ps).index_of(x)].1)),
    )
}

/// The first dependency in `deps` of process `name` that names no process.
pub open spec fn first_missing(names: Seq<Seq<char>>, name: Seq<char>, deps: Seq<Seq<char>>) -> Option<
    ValidationFault,
>
    decreases deps.len(),
{
    if deps.len() == 0 {
        None
    } else if !names.contains(deps[0]) {
        Some(ValidationFault::MissingDependency { process: name, depends_on: deps[0] })
    } else {
        first_missing(names, name, deps.drop_first())
    }
}

/// The first dependency, in process order and then dependency order, that
/// names no process of `names`.
pub open spec fn missing_fault(names: Seq<Seq<char>>, ps: Seq<(String, ProcessConfig)>) -> Option<
    ValidationFault,
>
    decreases ps.len(),
{
    if ps.len() == 0 {
        None
    } else {
        first_fault(
            first_missing(names, ps[0].0@, dependency_names(ps[0].1)),
            missing_fault(names, ps.drop_first()),
        )
    }
}

/// The first fault of a process, in process order.
pub open spec fn processes_fault(ps: Seq<(String, ProcessConfig)>) -> Option<ValidationFault>
    decreases ps.len(),
{
    if ps.len() == 0 {
        None
    } else {
        first_fault(ps[0].1.fault(ps[0].0@), processes_fault(ps.drop_first()))
    }
}

/// Some process has a dependency that depends, directly or not, back on it.
pub open spec fn has_process_cycle(ps: Seq<(String, ProcessConfig)>) -> bool {
    has_dep_cycle(dependency_map(ps), process_names(ps))
}

/// `cycle` is a closed sequence of processes, distinct but for the closing
/// one, each depending directly on the one before, all depending on one
/// another.
pub open spec fn is_process_cycle(ps: Seq<(String, ProcessConfig)>, cycle: Seq<Seq<char>>) -> bool {
    &&& cycle.len() >= 2
    &&& cycle[0] == cycle.last()
    &&& dep_chain(dependency_map(ps), cycle)
    &&& cycle.drop_last().no_duplicates()
    &&& forall|k: int| 0 <= k < cycle.len() ==> process_names(ps).contains(#[trigger] cycle[k])
    &&& forall|k1: int, k2: int|
        0 <= k1 < cycle.len() && 0 <= k2 < cycle.len() ==> depends_on(
            dependency_map(ps),
            #[trigger] cycle[k1],
            #[trigger] cycle[k2],
        )
}

/// The dependency graph of the processes: node `k` is the `k`-th process,
/// with an edge to each of its dependencies in the order they are listed.
pub open spec fn process_succ(ps: Seq<(String, ProcessConfig)>) -> Seq<Seq<usize>> {
    Seq::new(
        ps.len(),
        |k: int|
            dependency_names(ps[k].1).map_values(
                |y: Seq<char>| process_names(ps).index_of(y) as usize,
            ),
    )
}

/// The dependencies of each process in the order the cycle search scans
/// them: the last listed first.
pub open spec fn process_rows(ps: Seq<(String, ProcessConfig)>) -> Seq<Seq<usize>> {
    Seq::new(ps.len(), |k: int| process_succ(ps)[k].reverse())
}

/// The names of the processes `ids`.
pub open spec fn names_at(ps: Seq<(String, ProcessConfig)>, ids: Seq<usize>) -> Seq<Seq<char>> {
    ids.map_values(|v: usize| process_names(ps)[v as int])
}

/// `cycle` names the processes of the cycle that the search finds from the
/// process `v` at which the topological sort of the dependency graph met a
/// cycle, inside the component of `v`.
pub open spec fn is_searched_cycle(ps: Seq<(String, ProcessConfig)>, cycle: Seq<Seq<char>>) -> bool {
    exists|v: usize, ids: Seq<usize>|
        #![trigger cycle_from(process_rows(ps), component_of(process_succ(ps), v), false, v), names_at(ps, ids)]
        v < ps.len() && toposort_of(ps.len(), edges_of(process_succ(ps))) == Err::<Seq<usize>, usize>(v)
            && on_cycle(process_succ(ps), v) && cycle_from(
            process_rows(ps),
            component_of(process_succ(ps), v),
            false,
            v,
        ) == Some(ids) && cycle == names_at(ps, ids)
}

/// The names of a cycle that the search found from a process on a cycle
/// make a searched cycle.
pub proof fn lemma_searched_cycle(
    ps: Seq<(String, ProcessConfig)>,
    v: usize,
    ids: Seq<usize>,
    cycle: Seq<Seq<char>>,
)
    requires
        v < ps.len(),
        toposort_of(ps.len(), edges_of(process_succ(ps))) == Err::<Seq<usize>, usize>(v),
        on_cycle(process_succ(ps), v),
        cycle_from(process_rows(ps), component_of(process_succ(ps), v), false, v) == Some(ids),
        cycle == names_at(ps, ids),
    ensures
        is_searched_cycle(ps, cycle),
{
}

/// The outcome `r` of validating the processes `ps`: the first dependency
/// that names no process, else a cycle, else the first fault of a process.
pub open spec fn is_validation_result(ps: Seq<(String, ProcessConfig)>, r: Result<(), Error>) -> bool {
    match r {
        Ok(()) => {
            &&& missing_fault(process_names(ps), ps) is None
            &&& !has_process_cycle(ps)
            &&& processes_fault(ps) is None
        },
        Err(Error::Validate { source }) => if missing_fault(process_names(ps), ps) is Some {
            missing_fault(process_names(ps), ps) == Some(source@)
        } else if has_process_cycle(ps) {
            source@ matches ValidationFault::CyclicDependency { cycle } && is_process_cycle(
                ps,
                cycle,
            )
        } else {
            processes_fault(ps) == Some(source@)
        },
        Err(_) => false,
    }
}

/// The number of dependencies of all processes together.
pub open spec fn total_dependencies(ps: Seq<(String, ProcessConfig)>) -> nat
    decreases ps.len(),
{
    if ps.len() == 0 {
        0
    } else {
        total_dependencies(ps.drop_last()) + ps.last().1.depends_on@.len()
    }
}

pub proof fn lemma_total_dependencies_prefix(ps: Seq<(String, ProcessConfig)>, i: int)
    requires
        0 <= i < ps.len(),
    ensures
        total_dependencies(ps.take(i + 1)) == total_dependencies(ps.take(i))
            + ps[i].1.depends_on@.len(),
        total_dependencies(ps.take(i + 1)) <= total_dependencies(ps),
    decreases ps.len(),
{
    assert(ps.take(i + 1).drop_last() =~= ps.take(i));
    if i + 1 < ps.len() {
        lemma_total_dependencies_prefix(ps.drop_last(), i);
        assert(ps.drop_last().take(i + 1) =~= ps.take(i + 1));
        assert(ps.drop_last().take(i) =~= ps.take(i));
    } else {
        assert(ps.take(i + 1) =~= ps);
    }
}

/// The position of `x` in `s`, which holds it once.
pub proof fn lemma_index_of_unique(s: Seq<Seq<char>>, k: int)
    requires
        s.no_duplicates(),
        0 <= k < s.len(),
    ensures
        s.index_of(s[k]) == k,
{
    assert(s.contains(s[k]));
    let i = s.index_of(s[k]);
    assert(0 <= i < s.len() && s[i] == s[k]);
}

/// With every dependency naming a process, the processes are exactly what
/// the processes require, and all are declared.
pub proof fn lemma_processes_needed(ps: Seq<(String, ProcessConfig)>)
    requires
        process_names(ps).no_duplicates(),
        missing_fault(process_names(ps), ps) is None,
    ensures
        is_needed_set(dependency_map(ps), process_names(ps), process_names(ps)),
{
    let d = dependency_map(ps);
    let nn = process_names(ps);
    lemma_no_missing(nn, ps);
    assert forall|x: Seq<char>, y: Seq<char>|
        nn.contains(x) && d.contains_key(x) && #[trigger] d[x].contains(y) implies nn.contains(y) by {
        let k = nn.index_of(x);
        assert(0 <= k < nn.len() && nn[k] == x);
        assert(nn[k] == ps[k].0@);
        assert(d[x] == dependency_names(ps[k].1));
    }
    assert forall|x: Seq<char>| #[trigger] nn.contains(x) <==> required(d, nn, x) by {
        if nn.contains(x) {
            lemma_depends_refl(d, x);
        }
        if required(d, nn, x) {
            let t = choose|t: Seq<char>| #[trigger] nn.contains(t) && depends_on(d, t, x);
            let p = choose|p: Seq<Seq<char>>| #[trigger] dep_chain(d, p) && p[0] == t && p.last() == x;
            lemma_closed_holds_chain(d, nn, p);
        }
    }
}

/// The processes are exactly what the processes require through the
/// dependencies that name a process, and all of them are declared there.
pub proof fn lemma_known_needed(ps: Seq<(String, ProcessConfig)>)
    requires
        process_names(ps).no_duplicates(),
    ensures
        is_needed_set(known_dependency_map(ps), process_names(ps), process_names(ps)),
{
    broadcast use vstd::seq_lib::group_filter_ensures;

    let dk = known_dependency_map(ps);
    let nn = process_names(ps);
    assert forall|x: Seq<char>, y: Seq<char>|
        nn.contains(x) && dk.contains_key(x) && #[trigger] dk[x].contains(y) implies nn.contains(y) by {
        let ys = dependency_names(ps[nn.index_of(x)].1);
        let k = choose|k: int| 0 <= k < dk[x].len() && dk[x][k] == y;
        assert(dk[x] == known_names(ps, ys));
    }
    assert forall|x: Seq<char>| #[trigger] nn.contains(x) <==> required(dk, nn, x) by {
        if nn.contains(x) {
            lemma_depends_refl(dk, x);
        }
        if required(dk, nn, x) {
            let t = choose|t: Seq<char>| #[trigger] nn.contains(t) && depends_on(dk, t, x);
            let p = choose|p: Seq<Seq<char>>| #[trigger] dep_chain(dk, p) && p[0] == t && p.last() == x;
            lemma_closed_holds_chain(dk, nn, p);
        }
    }
}

/// With every dependency naming a process, the dependencies that the graph
/// keeps are all of them.
pub proof fn lemma_known_all(ps: Seq<(String, ProcessConfig)>)
    requires
        missing_fault(process_names(ps), ps) is None,
    ensures
        known_dependency_map(ps) == dependency_map(ps),
{
    let nn = process_names(ps);
    lemma_no_missing(nn, ps);
    assert forall|x: Seq<char>| nn.contains(x) implies #[trigger] known_dependency_map(ps)[x]
        == dependency_map(ps)[x] by {
        let k = nn.index_of(x);
        let ys = dependency_names(ps[k].1);
        assert(0 <= k < ps.len());
        assert forall|j: int| 0 <= j < ys.len() implies nn.contains(#[trigger] ys[j]) by {}
        lemma_filter_all(ys, |y: Seq<char>| nn.contains(y));
    }
    assert(known_dependency_map(ps) =~= dependency_map(ps));
}

/// Filtering keeps a sequence whose every element passes.
proof fn lemma_filter_all(ys: Seq<Seq<char>>, f: spec_fn(Seq<char>) -> bool)
    requires
        forall|j: int| 0 <= j < ys.len() ==> f(#[trigger] ys[j]),
    ensures
        ys.filter(f) == ys,
    decreases ys.len(),
{
    reveal(Seq::filter);
    if ys.len() > 0 {
        lemma_filter_all(ys.drop_last(), f);
        assert(ys.drop_last().push(ys.last()) =~= ys);
    }
}

/// A cycle of dependencies among the processes runs through processes only,
/// so the dependencies that name a process have it too, and the other way
/// round.
pub proof fn lemma_known_cycle(ps: Seq<(String, ProcessConfig)>)
    requires
        process_names(ps).no_duplicates(),
    ensures
        has_dep_cycle(known_dependency_map(ps), process_names(ps)) <==> has_process_cycle(ps),
{
    broadcast use vstd::seq_lib::group_filter_ensures;

    let d = dependency_map(ps);
    let dk = known_dependency_map(ps);
    let nn = process_names(ps);
    assert forall|x: Seq<char>, y: Seq<char>| #[trigger] dk[x].contains(y) && dk.contains_key(x)
        implies d.contains_key(x) && d[x].contains(y) && nn.contains(y) by {
        let ys = dependency_names(ps[nn.index_of(x)].1);
        assert(dk[x] == known_names(ps, ys));
        ys.lemma_filter_contains_rev(|z: Seq<char>| nn.contains(z), y);
        let k = choose|k: int| 0 <= k < dk[x].len() && dk[x][k] == y;
    }
    assert forall|x: Seq<char>, y: Seq<char>|
        d.contains_key(x) && #[trigger] d[x].contains(y) && nn.contains(y) implies dk.contains_key(x)
        && dk[x].contains(y) by {
        let ys = dependency_names(ps[nn.index_of(x)].1);
        let j = choose|j: int| 0 <= j < ys.len() && ys[j] == y;
        assert(dk[x] == known_names(ps, ys));
    }
    if has_dep_cycle(dk, nn) {
        let (x, y) = choose|x: Seq<char>, y: Seq<char>|
            required(dk, nn, x) && dk.contains_key(x) && #[trigger] dk[x].contains(y) && depends_on(
                dk,
                y,
                x,
            );
        let p = choose|p: Seq<Seq<char>>| #[trigger] dep_chain(dk, p) && p[0] == y && p.last() == x;
        assert forall|i: int| 0 <= i < p.len() - 1 implies #[trigger] dep_step(d, p, i) by {
            assert(dep_step(dk, p, i));
        }
        assert(dep_chain(d, p));
        lemma_depends_refl(d, x);
        assert(nn.contains(x));
        assert(required(d, nn, x));
    }
    if has_process_cycle(ps) {
        let (x, y) = choose|x: Seq<char>, y: Seq<char>|
            required(d, nn, x) && d.contains_key(x) && #[trigger] d[x].contains(y) && depends_on(
                d,
                y,
                x,
            );
        let p = choose|p: Seq<Seq<char>>| #[trigger] dep_chain(d, p) && p[0] == y && p.last() == x;
        assert forall|i: int| 0 <= i < p.len() implies #[trigger] nn.contains(p[i]) by {
            if i < p.len() - 1 {
                assert(dep_step(d, p, i));
            }
        }
        assert forall|i: int| 0 <= i < p.len() - 1 implies #[trigger] dep_step(dk, p, i) by {
            assert(dep_step(d, p, i));
            assert(nn.contains(p[i + 1]));
        }
        assert(dep_chain(dk, p));
        assert(nn.contains(x));
        assert(nn.contains(y));
        lemma_depends_refl(dk, x);
        assert(required(dk, nn, x));
    }
}

/// No missing dependency means every dependency of every process names a
/// process.
pub proof fn lemma_no_missing(names: Seq<Seq<char>>, ps: Seq<(String, ProcessConfig)>)
    requires
        missing_fault(names, ps) is None,
    ensures
        forall|k: int, j: int|
            0 <= k < ps.len() && 0 <= j < dependency_names(ps[k].1).len() ==> names.contains(
                #[trigger] dependency_names(ps[k].1)[j],
            ),
    decreases ps.len(),
{
    if ps.len() > 0 {
        lemma_no_missing(names, ps.drop_first());
        lemma_no_first_missing(names, ps[0].0@, dependency_names(ps[0].1));
        assert forall|k: int, j: int|
            0 <= k < ps.len() && 0 <= j < dependency_names(ps[k].1).len() implies names.contains(
            #[trigger] dependency_names(ps[k].1)[j],
        ) by {
            if k > 0 {
                assert(ps.drop_first()[k - 1] == ps[k]);
            }
        }
    }
}

proof fn lemma_no_first_missing(names: Seq<Seq<char>>, name: Seq<char>, deps: Seq<Seq<char>>)
    requires
        first_missing(names, name, deps) is None,
    ensures
        forall|j: int| 0 <= j < deps.len() ==> names.contains(#[trigger] deps[j]),
    decreases deps.len(),
{
    if deps.len() > 0 {
        lemma_no_first_missing(names, name, deps.drop_first());
        assert forall|j: int| 0 <= j < deps.len() implies names.contains(#[trigger] deps[j]) by {
            if j > 0 {
                assert(deps.drop_first()[j - 1] == deps[j]);
            }
        }
    }
}

/// Whether `name` is the name of one of the processes.
fn has_process(ps: &Vec<(String, ProcessConfig)>, name: &String) -> (b: bool)
    ensures
        b == process_names(ps@).contains(name@),
{
    let mut i: usize = 0;
    while i < ps.len()
        invariant
            i <= ps@.len(),
            forall|j: int| 0 <= j < i ==> process_names(ps@)[j] != name@,
        decreases ps@.len() - i,
    {
        if ps[i].0 == *name {
            proof {
                assert(process_names(ps@)[i as int] == name@);
            }
            return true;
        }
        i += 1;
    }
    false
}

/// The first dependency that names no process.
pub fn check_missing_dependencies(ps: &Vec<(String, ProcessConfig)>) -> (r: Result<(), Error>)
    ensures
        match r {
            Ok(()) => missing_fault(process_names(ps@), ps@) is None,
            Err(Error::Validate { source }) => missing_fault(process_names(ps@), ps@) == Some(
                source@,
            ),
            Err(_) => false,
        },
{
    let ghost names = process_names(ps@);
    let mut i: usize = 0;
    proof {
        assert(ps@.skip(0) =~= ps@);
    }
    while i < ps.len()
        invariant
            names == process_names(ps@),
            i <= ps@.len(),
            missing_fault(names, ps@) == missing_fault(names, ps@.skip(i as int)),
        decreases ps@.len() - i,
    {
        let deps = &ps[i].1.depends_on;
        let ghost dn = dependency_names(ps@[i as int].1);
        proof {
            assert(ps@.skip(i as int).drop_first() =~= ps@.skip(i + 1));
            assert(ps@.skip(i as int)[0] == ps@[i as int]);
        }
        let mut j: usize = 0;
        proof {
            assert(dn.skip(0) =~= dn);
        }
        while j < deps.len()
            invariant
                names == process_names(ps@),
                i < ps@.len(),
                missing_fault(names, ps@) == missing_fault(names, ps@.skip(i as int)),
                deps == ps@[i as int].1.depends_on,
                dn == dependency_names(ps@[i as int].1),
                j <= deps@.len(),
                first_missing(names, ps@[i as int].0@, dn) == first_missing(
                    names,
                    ps@[i as int].0@,
                    dn.skip(j as int),
                ),
            decreases deps@.len() - j,
        {
            proof {
                assert(dn.skip(j as int).drop_first() =~= dn.skip(j + 1));
                assert(dn.skip(j as int)[0] == deps@[j as int].0@);
            }
            if !has_process(ps, &deps[j].0) {
                let e = ValidationError::MissingDependency {
                    process: ps[i].0.clone(),
                    depends_on: deps[j].0.clone(),
                };
                proof {
                    assert(e@ == ValidationFault::MissingDependency {
                        process: ps@[i as int].0@,
                        depends_on: dn[j as int],
                    });
                    assert(first_missing(names, ps@[i as int].0@, dn.skip(j as int)) == Some(e@));
                    assert(ps@.skip(i as int)[0].0@ == ps@[i as int].0@);
                    assert(missing_fault(names, ps@.skip(i as int)) == Some(e@));
                }
                return Err(Error::Validate { source: e });
            }
            j += 1;
        }
        proof {
            assert(dn.skip(deps@.len() as int) =~= Seq::<Seq<char>>::empty());
        }
        i += 1;
    }
    proof {
        assert(ps@.skip(ps@.len() as int) =~= Seq::<(String, ProcessConfig)>::empty());
    }
    Ok(())
}

/// The first fault of a process.
pub fn validate_process_configs(ps: &Vec<(String, ProcessConfig)>) -> (r: Result<(), Error>)
    ensures
        match r {
            Ok(()) => processes_fault(ps@) is None,
            Err(Error::Validate { source }) => processes_fault(ps@) == Some(source@),
            Err(_) => false,
        },
{
    let mut i: usize = 0;
    proof {
        assert(ps@.skip(0) =~= ps@);
    }
    while i < ps.len()
        invariant
            i <= ps@.len(),
            processes_fault(ps@) == processes_fault(ps@.skip(i as int)),
        decreases ps@.len() - i,
    {
        proof {
            assert(ps@.skip(i as int).drop_first() =~= ps@.skip(i + 1));
            assert(ps@.skip(i as int)[0] == ps@[i as int]);
        }
        match ps[i].1.validate(ps[i].0.as_str()) {
            Ok(()) => {},
            Err(e) => {
                return Err(e);
            },
        }
        i += 1;
    }
    proof {
        assert(ps@.skip(ps@.len() as int) =~= Seq::<(String, ProcessConfig)>::empty());
    }
    Ok(())
}

/// A chain through the dependencies that name a process is a chain of
/// dependencies.
proof fn lemma_known_chain(ps: Seq<(String, ProcessConfig)>, p: Seq<Seq<char>>)
    requires
        dep_chain(known_dependency_map(ps), p),
    ensures
        dep_chain(dependency_map(ps), p),
{
    broadcast use vstd::seq_lib::group_filter_ensures;

    let d = dependency_map(ps);
    let dk = known_dependency_map(ps);
    let nn = process_names(ps);
    assert forall|i: int| 0 <= i < p.len() - 1 implies #[trigger] dep_step(d, p, i) by {
        assert(dep_step(dk, p, i));
        let x = p[i];
        let ys = dependency_names(ps[nn.index_of(x)].1);
        assert(dk[x] == known_names(ps, ys));
        ys.lemma_filter_contains_rev(|z: Seq<char>| nn.contains(z), p[i + 1]);
    }
}

/// A cycle that the graph of the processes reports is a cycle of processes,
/// the one that the search finds.
proof fn lemma_graph_cycle(
    ps: Seq<(String, ProcessConfig)>,
    idx: Map<Seq<char>, usize>,
    m: GraphModel<String>,
    cycle: Seq<String>,
)
    requires
        is_needed_set(known_dependency_map(ps), process_names(ps), process_names(ps)),
        is_dep_graph(known_dependency_map(ps), process_names(ps), idx, m.succ),
        m.labels.len() == process_names(ps).len(),
        forall|k: int| 0 <= k < m.labels.len() ==> #[trigger] m.labels[k]@ == process_names(ps)[k],
        exists|ids: Seq<usize>|
            closed_ids(ids) && labels_of(m, ids, cycle) && (forall|k1: int, k2: int|
                0 <= k1 < ids.len() && 0 <= k2 < ids.len() ==> reaches(
                    m.succ,
                    #[trigger] ids[k1],
                    #[trigger] ids[k2],
                )),
        exists|x: usize, ids: Seq<usize>|
            #![trigger cycle_from(m.succ, component_of(m.succ, x), true, x), labels_of(m, ids, cycle)]
            x < m.succ.len() && on_cycle(m.succ, x) && last_on_cycle(m.succ, x) && cycle_from(
                m.succ,
                component_of(m.succ, x),
                true,
                x,
            ) == Some(ids) && labels_of(m, ids, cycle) && is_path(m.succ, ids)
                && ids.drop_last().no_duplicates(),
    ensures
        is_process_cycle(ps, cycle.map_values(|c: String| c@)),
        is_found_cycle(known_dependency_map(ps), process_names(ps), cycle.map_values(|c: String| c@)),
{
    let d = dependency_map(ps);
    let dk = known_dependency_map(ps);
    let nn = process_names(ps);
    let labels = m.labels;
    let cv = cycle.map_values(|c: String| c@);
    let ids = choose|ids: Seq<usize>|
        closed_ids(ids) && labels_of(m, ids, cycle) && (forall|k1: int, k2: int|
            0 <= k1 < ids.len() && 0 <= k2 < ids.len() ==> reaches(
                m.succ,
                #[trigger] ids[k1],
                #[trigger] ids[k2],
            ));
    assert forall|k: int| 0 <= k < cycle.len() implies #[trigger] cv[k] == nn[ids[k] as int] by {
        assert(cloned::<String>(labels[ids[k] as int], cycle[k]));
        assert(labels[ids[k] as int]@ == nn[ids[k] as int]);
    }
    assert forall|k: int| 0 <= k < cv.len() implies nn.contains(#[trigger] cv[k]) by {
        assert(nn.contains(nn[ids[k] as int]));
    }
    assert forall|k1: int, k2: int|
        0 <= k1 < cv.len() && 0 <= k2 < cv.len() implies depends_on(
        d,
        #[trigger] cv[k1],
        #[trigger] cv[k2],
    ) by {
        assert(reaches(m.succ, ids[k1], ids[k2]));
        lemma_reaches_match(dk, nn, nn, idx, m.succ, ids[k1], ids[k2]);
        let p = choose|p: Seq<Seq<char>>| #[trigger] dep_chain(dk, p) && p[0] == cv[k1] && p.last() == cv[k2];
        lemma_known_chain(ps, p);
    }
    assert(cv[0] == cv.last());
    let (x, ids2) = choose|x: usize, ids2: Seq<usize>|
        #![trigger cycle_from(m.succ, component_of(m.succ, x), true, x), labels_of(m, ids2, cycle)]
        x < m.succ.len() && on_cycle(m.succ, x) && last_on_cycle(m.succ, x) && cycle_from(
            m.succ,
            component_of(m.succ, x),
            true,
            x,
        ) == Some(ids2) && labels_of(m, ids2, cycle) && is_path(m.succ, ids2)
            && ids2.drop_last().no_duplicates();
    assert forall|k: int| 0 <= k < cycle.len() implies #[trigger] cv[k] == names_of_ids(nn, ids2)[k] by {
        assert(cloned::<String>(labels[ids2[k] as int], cycle[k]));
        assert(labels[ids2[k] as int]@ == nn[ids2[k] as int]);
    }
    assert(cv =~= names_of_ids(nn, ids2));
    lemma_found_cycle(dk, nn, nn, idx, m.succ, x, ids2, cv);
    lemma_path_names(dk, nn, nn, idx, m.succ, ids2);
    lemma_known_chain(ps, cv);
}

/// The graph of the processes: node `k` is the `k`-th process, labelled
/// with its name, with an edge to each of its dependencies in turn; a
/// dependency that names no process adds no edge.
#[verifier::rlimit(60)]
fn process_digraph(ps: &Vec<(String, ProcessConfig)>) -> (r: (DiGraph<String>, Ghost<Map<Seq<char>, usize>>))
    requires
        process_names(ps@).no_duplicates(),
    ensures
        r.0.wf(),
        r.0@.labels.len() == process_names(ps@).len(),
        forall|k: int| 0 <= k < r.0@.labels.len() ==> #[trigger] r.0@.labels[k]@ == process_names(ps@)[k],
        is_needed_set(known_dependency_map(ps@), process_names(ps@), process_names(ps@)),
        is_dep_graph(known_dependency_map(ps@), process_names(ps@), r.1@, r.0@.succ),
{
    broadcast use vstd::seq_lib::group_filter_ensures;

    let ghost dk = known_dependency_map(ps@);
    let ghost nn = process_names(ps@);
    proof {
        lemma_known_needed(ps@);
    }
    let mut graph: DiGraph<String> = DiGraph::new();
    let mut i: usize = 0;
    while i < ps.len()
        invariant
            nn == process_names(ps@),
            nn.no_duplicates(),
            i <= nn.len(),
            graph.wf(),
            graph@.labels.len() == i,
            graph@.succ =~= Seq::new(i as nat, |k: int| Seq::<usize>::empty()),
            forall|k: int| 0 <= k < i ==> #[trigger] graph@.labels[k]@ == nn[k],
            forall|k: int|
                #![trigger nn[k]]
                0 <= k < i ==> graph@.ids.contains_key(nn[k]) && graph@.ids[nn[k]] == k,
            forall|x: Seq<char>| #[trigger] graph@.ids.contains_key(x) ==> nn.take(i as int).contains(x),
        decreases nn.len() - i,
    {
        let ghost before = graph@;
        graph.add_node(ps[i].0.as_str(), ps[i].0.clone());
        proof {
            assert(nn[i as int] == ps@[i as int].0@);
            assert forall|k: int| #![trigger nn[k]] 0 <= k < i implies graph@.ids.contains_key(nn[k])
                && graph@.ids[nn[k]] == k by {
                assert(nn[k] != nn[i as int]);
                assert(before.ids.contains_key(nn[k]));
            }
            assert forall|x: Seq<char>| #[trigger] graph@.ids.contains_key(x) implies nn.take(
                i + 1,
            ).contains(x) by {
                if x == nn[i as int] {
                    assert(nn.take(i + 1)[i as int] == x);
                } else {
                    assert(before.ids.contains_key(x));
                    let k = choose|k: int| 0 <= k < i && nn.take(i as int)[k] == x;
                    assert(nn.take(i + 1)[k] == x);
                }
            }
        }
        i += 1;
    }
    proof {
        assert(nn.take(nn.len() as int) =~= nn);
    }
    let ghost idx = graph@.ids;
    let ghost labels = graph@.labels;
    let mut i: usize = 0;
    while i < ps.len()
        invariant
            dk == known_dependency_map(ps@),
            nn == process_names(ps@),
            nn.no_duplicates(),
            i <= nn.len(),
            graph.wf(),
            graph@.ids == idx,
            graph@.labels == labels,
            graph@.succ.len() == nn.len(),
            forall|k: int|
                #![trigger nn[k]]
                0 <= k < nn.len() ==> idx.contains_key(nn[k]) && idx[nn[k]] == k,
            forall|x: Seq<char>| #[trigger] idx.contains_key(x) ==> nn.contains(x),
            forall|k: int|
                0 <= k < i ==> #[trigger] graph@.succ[k] == ids_of(
                    idx,
                    known_names(ps@, dependency_names(ps@[k].1)),
                ),
            forall|k: int| i <= k < nn.len() ==> #[trigger] graph@.succ[k] == Seq::<usize>::empty(),
        decreases nn.len() - i,
    {
        let deps = &ps[i].1.depends_on;
        let ghost dn = dependency_names(ps@[i as int].1);
        let mut j: usize = 0;
        proof {
            assert(dn.take(0) =~= Seq::<Seq<char>>::empty());
            reveal(Seq::filter);
            assert(known_names(ps@, dn.take(0)) =~= Seq::<Seq<char>>::empty());
        }
        while j < deps.len()
            invariant
                nn == process_names(ps@),
                i < nn.len(),
                deps == ps@[i as int].1.depends_on,
                dn == dependency_names(ps@[i as int].1),
                j <= deps@.len(),
                graph.wf(),
                graph@.ids == idx,
                graph@.labels == labels,
                graph@.succ.len() == nn.len(),
                forall|k: int|
                    #![trigger nn[k]]
                    0 <= k < nn.len() ==> idx.contains_key(nn[k]) && idx[nn[k]] == k,
                forall|x: Seq<char>| #[trigger] idx.contains_key(x) ==> nn.contains(x),
                forall|k: int|
                    0 <= k < i ==> #[trigger] graph@.succ[k] == ids_of(
                        idx,
                        known_names(ps@, dependency_names(ps@[k].1)),
                    ),
                forall|k: int| i < k < nn.len() ==> #[trigger] graph@.succ[k] == Seq::<usize>::empty(),
                graph@.succ[i as int] == ids_of(idx, known_names(ps@, dn.take(j as int))),
            decreases deps@.len() - j,
        {
            let ghost y = dn[j as int];
            proof {
                assert(y == deps@[j as int].0@);
                assert(nn[i as int] == ps@[i as int].0@);
                assert(idx.contains_key(nn[i as int]));
                assert(dn.take(j + 1) =~= dn.take(j as int).push(y));
                dn.take(j as int).lemma_filter_push(y, |z: Seq<char>| process_names(ps@).contains(z));
                if nn.contains(y) {
                    let m = choose|m: int| 0 <= m < nn.len() && nn[m] == y;
                    assert(idx.contains_key(nn[m]));
                    assert(ids_of(idx, known_names(ps@, dn.take(j as int)).push(y)) =~= ids_of(
                        idx,
                        known_names(ps@, dn.take(j as int)),
                    ).push(idx[y]));
                }
            }
            graph.add_edge(ps[i].0.as_str(), deps[j].0.as_str());
            j += 1;
        }
        proof {
            assert(dn.take(deps@.len() as int) =~= dn);
        }
        i += 1;
    }
    proof {
        assert forall|k: int| 0 <= k < nn.len() implies #[trigger] graph@.succ[k] == ids_of(
            idx,
            dk[nn[k]],
        ) by {
            lemma_index_of_unique(nn, k);
            assert(nn.contains(nn[k]));
            assert(nn[k] == ps@[k].0@);
        }
        assert(is_dep_graph(dk, nn, idx, graph@.succ));
    }
    (graph, Ghost(idx))
}

/// The warnings that checking the processes one by one gives: each
/// process's warnings, up to and including the first process with a fault.
pub open spec fn warnings_until_fault(ps: Seq<(String, ProcessConfig)>) -> Seq<Seq<char>>
    decreases ps.len(),
{
    if ps.len() == 0 {
        Seq::empty()
    } else {
        ps[0].1.warnings(ps[0].0@) + if ps[0].1.fault(ps[0].0@) is Some {
            Seq::empty()
        } else {
            warnings_until_fault(ps.drop_first())
        }
    }
}

/// The warnings that checking the processes gives on its way, up to the
/// first process that fails its checks.
pub fn process_warnings(ps: &Vec<(String, ProcessConfig)>) -> (w: Vec<String>)
    ensures
        w@.map_values(|s: String| s@) == warnings_until_fault(ps@),
{
    let mut w: Vec<String> = Vec::new();
    let mut i: usize = 0;
    proof {
        assert(ps@.skip(0) =~= ps@);
        assert(w@.map_values(|s: String| s@) =~= Seq::<Seq<char>>::empty());
    }
    while i < ps.len()
        invariant
            i <= ps@.len(),
            w@.map_values(|s: String| s@) + warnings_until_fault(ps@.skip(i as int))
                == warnings_until_fault(ps@),
        decreases ps@.len() - i,
    {
        let ghost before = w@.map_values(|s: String| s@);
        let ghost rest = ps@.skip(i as int);
        proof {
            assert(rest.drop_first() =~= ps@.skip(i + 1));
            assert(rest[0] == ps@[i as int]);
        }
        let mut more = ps[i].1.rotation_warnings(ps[i].0.as_str());
        let ghost mv = more@.map_values(|s: String| s@);
        w.append(&mut more);
        proof {
            assert(w@.map_values(|s: String| s@) =~= before + mv);
        }
        match ps[i].1.validate(ps[i].0.as_str()) {
            Ok(()) => {
                proof {
                    assert(before + mv + warnings_until_fault(ps@.skip(i + 1)) =~= before + (mv
                        + warnings_until_fault(ps@.skip(i + 1))));
                }
            },
            Err(_) => {
                proof {
                    assert(warnings_until_fault(rest) =~= mv + Seq::<Seq<char>>::empty());
                    assert(w@.map_values(|s: String| s@) =~= before + warnings_until_fault(rest));
                }
                return w;
            },
        }
        i += 1;
    }
    proof {
        assert(ps@.skip(i as int) =~= Seq::<(String, ProcessConfig)>::empty());
        assert(w@.map_values(|s: String| s@) + Seq::<Seq<char>>::empty() =~= w@.map_values(
            |s: String| s@,
        ));
    }
    w
}

/// A cycle of dependencies among the processes, found with the project's
/// own graph; a dependency that names no process is left out of the graph.
#[verifier::rlimit(30)]
fn detect_dependency_cycles(ps: &Vec<(String, ProcessConfig)>) -> (r: Result<(), Error>)
    requires
        process_names(ps@).no_duplicates(),
    ensures
        match r {
            Ok(()) => !has_process_cycle(ps@),
            Err(Error::Validate { source }) => {
                &&& has_process_cycle(ps@)
                &&& source@ matches ValidationFault::CyclicDependency { cycle } && is_process_cycle(
                    ps@,
                    cycle,
                ) && is_found_cycle(known_dependency_map(ps@), process_names(ps@), cycle)
            },
            Err(_) => false,
        },
{
    let ghost dk = known_dependency_map(ps@);
    let ghost nn = process_names(ps@);
    let (graph, Ghost(idx)) = process_digraph(ps);
    proof {
        lemma_cycle_match(dk, nn, nn, idx, graph@.succ);
        lemma_known_cycle(ps@);
    }
    match graph.detect_cycle() {
        Some(cycle) => {
            let e = ValidationError::CyclicDependency { cycle };
            proof {
                lemma_graph_cycle(ps@, idx, graph@, cycle@);
            }
            Err(Error::Validate { source: e })
        },
        None => Ok(()),
    }
}

/// Validates a set of processes whose names are distinct: the first
/// dependency that names no process, else a cycle of dependencies, else the
/// first fault of a process.
pub fn validate_processes(ps: &Vec<(String, ProcessConfig)>) -> (r: Result<(), Error>)
    requires
        process_names(ps@).no_duplicates(),
    ensures
        is_validation_result(ps@, r),
        missing_fault(process_names(ps@), ps@) is None && has_process_cycle(ps@) ==> (r matches Err(
            Error::Validate { source },
        ) && (source@ matches ValidationFault::CyclicDependency { cycle } && is_found_cycle(
            dependency_map(ps@),
            process_names(ps@),
            cycle,
        ))),
{
    match check_missing_dependencies(ps) {
        Ok(()) => {},
        Err(e) => {
            return Err(e);
        },
    }
    proof {
        lemma_known_all(ps@);
    }
    match detect_dependency_cycles(ps) {
        Ok(()) => {},
        Err(e) => {
            return Err(e);
        },
    }
    validate_process_configs(ps)
}

/// The processes pass their own checks exactly when each of them does; and
/// when one fails, the fault given is that of the first process that fails.
pub proof fn law_every_process_is_checked(ps: Seq<(String, ProcessConfig)>)
    ensures
        processes_fault(ps) is None <==> forall|k: int|
            0 <= k < ps.len() ==> (#[trigger] ps[k]).1.fault(ps[k].0@) is None,
        processes_fault(ps) is Some ==> exists|k: int|
            0 <= k < ps.len() && processes_fault(ps) == (#[trigger] ps[k]).1.fault(ps[k].0@) && forall|
                j: int,
            | 0 <= j < k ==> (#[trigger] ps[j]).1.fault(ps[j].0@) is None,
    decreases ps.len(),
{
    if ps.len() > 0 {
        let rest = ps.drop_first();
        law_every_process_is_checked(rest);
        assert forall|k: int| 0 < k < ps.len() implies ps[k] == rest[k - 1] by {}
        if ps[0].1.fault(ps[0].0@) is None {
            if processes_fault(ps) is None {
                assert forall|k: int| 0 <= k < ps.len() implies (#[trigger] ps[k]).1.fault(
                    ps[k].0@,
                ) is None by {
                    if k > 0 {
                        assert(ps[k] == rest[k - 1]);
                    }
                }
            } else {
                let k = choose|k: int|
                    0 <= k < rest.len() && processes_fault(rest) == (#[trigger] rest[k]).1.fault(
                        rest[k].0@,
                    ) && forall|j: int| 0 <= j < k ==> (#[trigger] rest[j]).1.fault(rest[j].0@) is None;
                assert(ps[k + 1] == rest[k]);
                assert forall|j: int| 0 <= j < k + 1 implies (#[trigger] ps[j]).1.fault(ps[j].0@) is None by {
                    if j > 0 {
                        assert(ps[j] == rest[j - 1]);
                    }
                }
                assert(!(forall|k2: int|
                    0 <= k2 < ps.len() ==> (#[trigger] ps[k2]).1.fault(ps[k2].0@) is None)) by {
                    assert(ps[k + 1].1.fault(ps[k + 1].0@) is Some);
                }
            }
        } else {
            assert(processes_fault(ps) == ps[0].1.fault(ps[0].0@));
            assert(!(forall|k2: int|
                0 <= k2 < ps.len() ==> (#[trigger] ps[k2]).1.fault(ps[k2].0@) is None)) by {
                assert(ps[0].1.fault(ps[0].0@) is Some);
            }
        }
    }
}

} // verus!
