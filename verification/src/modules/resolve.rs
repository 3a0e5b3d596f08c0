//! Which modules a set of targets needs, and in what order to load them.
use vstd::prelude::*;
use vstd::hash_map::StringHashMap;
use vstd::seq_lib::seq_to_set_is_finite;
use vstd::set_lib::{lemma_len_subset, lemma_set_subset_finite};

use crate::config::error::ValidationError;
use crate::config::supervise::cycles::{
    cycle_through, edges_of, edges_upto, toposort_of, lemma_graph_of_rows, pg_add_edge, pg_add_node, pg_edges, pg_new,
    pg_nodes, pg_toposort, pg_weight, pg_wf,
};
use crate::graph::paths::{edge, lemma_distinct_covers, reaches};
use crate::graph::search::on_cycle;
use super::depfile::dep_view;
use super::graph_link::{
    is_sorted_cycle, lemma_path_names, name_graph, names_of_ids, ids_of, is_dep_graph,
    is_needed_set, lemma_cycle_match, lemma_needed_closed, lemma_reaches_match,
};
use super::text::views;

verus! {

/// Step `i` of `p` goes from a declared module to one of its dependencies.
pub open spec fn dep_step(d: Map<Seq<char>, Seq<Seq<char>>>, p: Seq<Seq<char>>, i: int) -> bool {
    &&& d.contains_key(p[i])
    &&& d[p[i]].contains(p[i + 1])
}

/// `p` is a non-empty chain of modules, each a dependency of the one before.
pub open spec fn dep_chain(d: Map<Seq<char>, Seq<Seq<char>>>, p: Seq<Seq<char>>) -> bool {
    &&& p.len() >= 1
    &&& forall|i: int| 0 <= i < p.len() - 1 ==> #[trigger] dep_step(d, p, i)
}

/// `y` is `x` itself or a direct or indirect dependency of `x`.
pub open spec fn depends_on(d: Map<Seq<char>, Seq<Seq<char>>>, x: Seq<char>, y: Seq<char>) -> bool {
    exists|p: Seq<Seq<char>>| #[trigger] dep_chain(d, p) && p[0] == x && p.last() == y
}

/// `x` is one of `targets` or something one of them depends on.
pub open spec fn required(
    d: Map<Seq<char>, Seq<Seq<char>>>,
    targets: Seq<Seq<char>>,
    x: Seq<char>,
) -> bool {
    exists|t: Seq<char>| #[trigger] targets.contains(t) && depends_on(d, t, x)
}

/// Every module that `targets` require is declared.
pub open spec fn all_declared(d: Map<Seq<char>, Seq<Seq<char>>>, targets: Seq<Seq<char>>) -> bool {
    forall|x: Seq<char>| #[trigger] required(d, targets, x) ==> d.contains_key(x)
}

/// Some required module has a dependency that depends back on it.
pub open spec fn has_dep_cycle(d: Map<Seq<char>, Seq<Seq<char>>>, targets: Seq<Seq<char>>) -> bool {
    exists|x: Seq<char>, y: Seq<char>|
        required(d, targets, x) && d.contains_key(x) && #[trigger] d[x].contains(y) && depends_on(
            d,
            y,
            x,
        )
}

/// Every name listed as a dependency somewhere in `d`.
pub open spec fn dep_names(d: Map<Seq<char>, Seq<Seq<char>>>) -> Set<Seq<char>> {
    Set::new(|y: Seq<char>| exists|x: Seq<char>| d.contains_key(x) && #[trigger] d[x].contains(y))
}

pub proof fn lemma_depends_refl(d: Map<Seq<char>, Seq<Seq<char>>>, x: Seq<char>)
    ensures
        depends_on(d, x, x),
{
    let p = seq![x];
    assert(dep_chain(d, p));
}

pub proof fn lemma_depends_step(
    d: Map<Seq<char>, Seq<Seq<char>>>,
    x: Seq<char>,
    y: Seq<char>,
    z: Seq<char>,
)
    requires
        depends_on(d, x, y),
        d.contains_key(y),
        d[y].contains(z),
    ensures
        depends_on(d, x, z),
{
    let p = choose|p: Seq<Seq<char>>| #[trigger] dep_chain(d, p) && p[0] == x && p.last() == y;
    let q = p.push(z);
    assert forall|i: int| 0 <= i < q.len() - 1 implies #[trigger] dep_step(d, q, i) by {
        if i < p.len() - 1 {
            assert(dep_step(d, p, i));
        }
    }
    assert(dep_chain(d, q));
}

pub proof fn lemma_required_step(
    d: Map<Seq<char>, Seq<Seq<char>>>,
    targets: Seq<Seq<char>>,
    x: Seq<char>,
    y: Seq<char>,
)
    requires
        required(d, targets, x),
        d.contains_key(x),
        d[x].contains(y),
    ensures
        required(d, targets, y),
{
    let t = choose|t: Seq<char>| #[trigger] targets.contains(t) && depends_on(d, t, x);
    lemma_depends_step(d, t, x, y);
}

pub proof fn lemma_target_required(
    d: Map<Seq<char>, Seq<Seq<char>>>,
    targets: Seq<Seq<char>>,
    t: Seq<char>,
)
    requires
        targets.contains(t),
    ensures
        required(d, targets, t),
{
    lemma_depends_refl(d, t);
}

/// A set of names that holds the start of a chain and, with each of its
/// names, that name's declared dependencies, holds the end of the chain.
pub proof fn lemma_closed_holds_chain(
    d: Map<Seq<char>, Seq<Seq<char>>>,
    s: Seq<Seq<char>>,
    p: Seq<Seq<char>>,
)
    requires
        dep_chain(d, p),
        s.contains(p[0]),
        forall|x: Seq<char>, y: Seq<char>|
            s.contains(x) && d.contains_key(x) && #[trigger] d[x].contains(y) ==> s.contains(y),
    ensures
        s.contains(p.last()),
    decreases p.len(),
{
    if p.len() > 1 {
        let q = p.drop_last();
        assert forall|i: int| 0 <= i < q.len() - 1 implies #[trigger] dep_step(d, q, i) by {
            assert(dep_step(d, p, i));
        }
        lemma_closed_holds_chain(d, s, q);
        assert(dep_step(d, p, p.len() - 2));
    }
}

pub proof fn lemma_dep_names_finite(d: Map<Seq<char>, Seq<Seq<char>>>)
    requires
        d.dom().finite(),
    ensures
        dep_names(d).finite(),
    decreases d.dom().len(),
{
    if d.dom().len() == 0 {
        assert(dep_names(d) =~= Set::<Seq<char>>::empty()) by {
            assert forall|y: Seq<char>| !dep_names(d).contains(y) by {
                if dep_names(d).contains(y) {
                    let x = choose|x: Seq<char>| d.contains_key(x) && #[trigger] d[x].contains(y);
                    assert(d.dom().contains(x));
                }
            }
        }
    } else {
        let x = d.dom().choose();
        let d2 = d.remove(x);
        assert(d2.dom() =~= d.dom().remove(x));
        lemma_dep_names_finite(d2);
        let s = dep_names(d2).union(d[x].to_set());
        seq_to_set_is_finite(d[x]);
        assert(dep_names(d).subset_of(s)) by {
            assert forall|y: Seq<char>| dep_names(d).contains(y) implies s.contains(y) by {
                let x2 = choose|x2: Seq<char>| d.contains_key(x2) && #[trigger] d[x2].contains(y);
                if x2 == x {
                    assert(d[x].to_set().contains(y));
                } else {
                    assert(d2.contains_key(x2) && d2[x2].contains(y));
                }
            }
        }
        lemma_set_subset_finite(s, dep_names(d));
    }
}

/// `stack` with each of `deps` that `needed` lacks pushed in turn.
pub open spec fn push_new(stack: Seq<Seq<char>>, deps: Seq<Seq<char>>, needed: Set<Seq<char>>) -> Seq<
    Seq<char>,
>
    decreases deps.len(),
{
    if deps.len() == 0 {
        stack
    } else {
        let s = push_new(stack, deps.drop_last(), needed);
        if needed.contains(deps.last()) {
            s
        } else {
            s.push(deps.last())
        }
    }
}

/// The first undeclared module that the search for needed modules meets:
/// it pops the last name of `stack`, passes over one already needed, stops at
/// one that `d` does not declare, and otherwise marks it needed and pushes
/// its dependencies not yet needed. `u` bounds every name it can meet; a
/// name outside it ends the search.
pub open spec fn missing_from(
    d: Map<Seq<char>, Seq<Seq<char>>>,
    u: Set<Seq<char>>,
    stack: Seq<Seq<char>>,
    needed: Set<Seq<char>>,
) -> Option<Seq<char>>
    decreases u.len() - needed.len(), stack.len(),
{
    if stack.len() == 0 || !u.finite() || !needed.subset_of(u) || !u.contains(stack.last()) {
        None
    } else {
        let x = stack.last();
        let rest = stack.drop_last();
        if needed.contains(x) {
            proof {
                lemma_len_subset(needed, u);
            }
            missing_from(d, u, rest, needed)
        } else if !d.contains_key(x) {
            Some(x)
        } else {
            proof {
                lemma_len_subset(needed.insert(x), u);
            }
            missing_from(d, u, push_new(rest, d[x], needed.insert(x)), needed.insert(x))
        }
    }
}

/// One step of the search that marks a declared module needed.
pub proof fn lemma_missing_from_step(
    d: Map<Seq<char>, Seq<Seq<char>>>,
    u: Set<Seq<char>>,
    stack: Seq<Seq<char>>,
    needed: Set<Seq<char>>,
)
    requires
        u.finite(),
        needed.subset_of(u),
        forall|k: int| 0 <= k < stack.len() ==> u.contains(#[trigger] stack[k]),
        stack.len() > 0,
        !needed.contains(stack.last()),
        d.contains_key(stack.last()),
    ensures
        missing_from(d, u, stack, needed) == missing_from(
            d,
            u,
            push_new(stack.drop_last(), d[stack.last()], needed.insert(stack.last())),
            needed.insert(stack.last()),
        ),
{
    assert(u.contains(stack[stack.len() - 1]));
}

/// The set of a sequence with one more name is the set with that name.
pub proof fn lemma_push_set(s: Seq<Seq<char>>, x: Seq<char>)
    ensures
        s.push(x).to_set() == s.to_set().insert(x),
{
    assert forall|z: Seq<char>| s.push(x).to_set().contains(z) <==> s.to_set().insert(x).contains(z) by {
        if s.push(x).contains(z) {
            let k = choose|k: int| 0 <= k < s.push(x).len() && s.push(x)[k] == z;
            if k < s.len() {
                assert(s[k] == z);
            }
        }
        if s.contains(z) {
            let k = choose|k: int| 0 <= k < s.len() && s[k] == z;
            assert(s.push(x)[k] == z);
        }
        if z == x {
            assert(s.push(x)[s.len() as int] == x);
        }
    }
    assert(s.push(x).to_set() =~= s.to_set().insert(x));
}

/// The modules that the same search marks needed, after `needed`, in the
/// order it marks them, up to an undeclared module if it meets one.
pub open spec fn needed_from(
    d: Map<Seq<char>, Seq<Seq<char>>>,
    u: Set<Seq<char>>,
    stack: Seq<Seq<char>>,
    needed: Seq<Seq<char>>,
) -> Seq<Seq<char>>
    decreases u.len() - needed.to_set().len(), stack.len(),
{
    if stack.len() == 0 || !u.finite() || !needed.to_set().subset_of(u) || !u.contains(stack.last())
        || !needed.no_duplicates() {
        needed
    } else {
        let x = stack.last();
        let rest = stack.drop_last();
        proof {
            seq_to_set_is_finite(needed);
            lemma_len_subset(needed.to_set(), u);
        }
        if needed.contains(x) {
            needed_from(d, u, rest, needed)
        } else if !d.contains_key(x) {
            needed
        } else {
            proof {
                lemma_push_set(needed, x);
                assert(!needed.to_set().contains(x));
                lemma_len_subset(needed.to_set().insert(x), u);
            }
            needed_from(d, u, push_new(rest, d[x], needed.push(x).to_set()), needed.push(x))
        }
    }
}

/// The modules that `targets` need, in the order that the search from the
/// last target meets them.
pub open spec fn needed_order(d: Map<Seq<char>, Seq<Seq<char>>>, targets: Seq<Seq<char>>) -> Seq<
    Seq<char>,
> {
    needed_from(d, targets.to_set().union(dep_names(d)), targets, Seq::empty())
}

/// One step of the search that marks a declared module needed.
pub proof fn lemma_needed_from_step(
    d: Map<Seq<char>, Seq<Seq<char>>>,
    u: Set<Seq<char>>,
    stack: Seq<Seq<char>>,
    needed: Seq<Seq<char>>,
)
    requires
        u.finite(),
        needed.to_set().subset_of(u),
        needed.no_duplicates(),
        forall|k: int| 0 <= k < stack.len() ==> u.contains(#[trigger] stack[k]),
        stack.len() > 0,
        !needed.contains(stack.last()),
        d.contains_key(stack.last()),
    ensures
        needed_from(d, u, stack, needed) == needed_from(
            d,
            u,
            push_new(stack.drop_last(), d[stack.last()], needed.push(stack.last()).to_set()),
            needed.push(stack.last()),
        ),
{
    assert(u.contains(stack[stack.len() - 1]));
}

/// The first undeclared module that the search from `targets` meets.
pub open spec fn first_missing_module(d: Map<Seq<char>, Seq<Seq<char>>>, targets: Seq<Seq<char>>) -> Option<
    Seq<char>,
> {
    missing_from(d, targets.to_set().union(dep_names(d)), targets, Set::empty())
}

/// Every module that `targets` need, each once, in the order a depth-first
/// search from the last target meets them; or the first needed module that
/// `dep_map` does not declare, as that search meets it.
#[verifier::rlimit(60)]
pub fn collect_transitive_deps(dep_map: &StringHashMap<Vec<String>>, targets: &[String]) -> (r:
    Result<Vec<String>, ValidationError>)
    requires
        dep_map@.dom().finite(),
    ensures
        match r {
            Ok(needed) => {
                &&& all_declared(dep_view(dep_map@), views(targets@))
                &&& views(needed@).no_duplicates()
                &&& forall|x: Seq<char>|
                    #[trigger] views(needed@).contains(x) <==> required(
                        dep_view(dep_map@),
                        views(targets@),
                        x,
                    )
            },
            Err(ValidationError::ModuleNotFound { name }) => {
                &&& required(dep_view(dep_map@), views(targets@), name@)
                &&& !dep_map@.contains_key(name@)
                &&& first_missing_module(dep_view(dep_map@), views(targets@)) == Some(name@)
            },
            Err(_) => false,
        },
        r is Ok ==> first_missing_module(dep_view(dep_map@), views(targets@)) is None,
        r matches Ok(needed) ==> views(needed@) == needed_order(dep_view(dep_map@), views(targets@)),
{
    let ghost d = dep_view(dep_map@);
    let ghost t = views(targets@);
    let ghost u = t.to_set().union(dep_names(d));
    proof {
        assert(d.dom() =~= dep_map@.dom());
        lemma_dep_names_finite(d);
        seq_to_set_is_finite(t);
    }
    let mut stack: Vec<String> = Vec::new();
    let mut i: usize = 0;
    while i < targets.len()
        invariant
            i <= targets@.len(),
            t == views(targets@),
            views(stack@) == t.take(i as int),
        decreases targets@.len() - i,
    {
        let c = targets[i].clone();
        proof {
            assert(c@ == t[i as int]);
            assert(views(stack@.push(c)) =~= views(stack@).push(c@));
            assert(t.take(i + 1) =~= t.take(i as int).push(t[i as int]));
        }
        stack.push(c);
        i += 1;
    }
    proof {
        assert(t.take(t.len() as int) =~= t);
    }
    let mut needed: Vec<String> = Vec::new();
    let mut seen: StringHashMap<()> = StringHashMap::new();
    proof {
        assert(views(needed@) =~= Seq::<Seq<char>>::empty());
        assert(seen@.dom() =~= views(needed@).to_set());
        assert forall|x: Seq<char>| #[trigger] views(stack@).contains(x) implies required(d, t, x) by {
            lemma_target_required(d, t, x);
        }
    }
    let ghost target = first_missing_module(d, t);
    let ghost order = needed_order(d, t);
    proof {
        assert(views(stack@) =~= t);
        assert(views(needed@).to_set() =~= Set::<Seq<char>>::empty());
    }
    while stack.len() > 0
        invariant
            order == needed_order(d, t),
            needed_from(d, u, views(stack@), views(needed@)) == order,
            target == first_missing_module(d, t),
            missing_from(d, u, views(stack@), views(needed@).to_set()) == target,
            d == dep_view(dep_map@),
            t == views(targets@),
            u == t.to_set().union(dep_names(d)),
            u.finite(),
            views(needed@).no_duplicates(),
            seen@.dom() == views(needed@).to_set(),
            forall|x: Seq<char>| #[trigger] views(needed@).contains(x) ==> required(d, t, x),
            forall|x: Seq<char>| #[trigger] views(stack@).contains(x) ==> required(d, t, x),
            forall|x: Seq<char>| #[trigger] views(needed@).contains(x) ==> u.contains(x),
            forall|x: Seq<char>| #[trigger] views(stack@).contains(x) ==> u.contains(x),
            forall|x: Seq<char>|
                #[trigger] t.contains(x) ==> views(needed@).contains(x) || views(
                    stack@,
                ).contains(x),
            forall|x: Seq<char>| #[trigger] views(needed@).contains(x) ==> d.contains_key(x),
            forall|x: Seq<char>, y: Seq<char>|
                views(needed@).contains(x) && #[trigger] d[x].contains(y) ==> views(
                    needed@,
                ).contains(y) || views(stack@).contains(y),
        decreases u.len() - views(needed@).len(), stack@.len(),
    {
        proof {
            views(needed@).unique_seq_to_set();
            lemma_len_subset(views(needed@).to_set(), u);
        }
        let ghost old_stack = views(stack@);
        let ghost old_needed = views(needed@);
        let name = stack.pop().unwrap();
        let ghost nv = name@;
        let ghost rest = views(stack@);
        let ghost n0 = views(needed@).to_set();
        proof {
            assert(rest =~= old_stack.drop_last());
            assert(old_stack.last() == nv);
            assert forall|k: int| 0 <= k < old_stack.len() implies u.contains(#[trigger] old_stack[k]) by {
                assert(old_stack.contains(old_stack[k]));
            }
            assert(n0.subset_of(u));
            assert(old_stack.contains(nv)) by {
                assert(old_stack[old_stack.len() - 1] == nv);
            }
            assert forall|x: Seq<char>| old_stack.contains(x) && x != nv implies views(
                stack@,
            ).contains(x) by {
                let k = choose|k: int| 0 <= k < old_stack.len() && old_stack[k] == x;
                assert(k < old_stack.len() - 1);
                assert(views(stack@)[k] == x);
            }
            assert forall|x: Seq<char>| #[trigger] views(stack@).contains(x) implies old_stack.contains(x) by {
                let k = choose|k: int| 0 <= k < views(stack@).len() && views(stack@)[k] == x;
                assert(old_stack[k] == x);
            }
        }
        if seen.contains_key(name.as_str()) {
            proof {
                assert(views(needed@).to_set().contains(nv));
                assert(missing_from(d, u, old_stack, n0) == missing_from(d, u, rest, n0));
                assert forall|k: int| 0 <= k < rest.len() implies u.contains(#[trigger] rest[k]) by {
                    assert(rest.contains(rest[k]));
                }
                assert(old_needed.to_set() =~= n0);
                assert(old_needed.contains(nv));
                assert(needed_from(d, u, old_stack, old_needed) == needed_from(d, u, rest, old_needed));
            }
            continue;
        }
        let c = name.clone();
        seen.insert(c, ());
        needed.push(name.clone());
        proof {
            assert(views(needed@) =~= old_needed.push(nv));
            assert(!old_needed.contains(nv)) by {
                assert(!old_needed.to_set().contains(nv));
            }
            assert forall|x: Seq<char>| #[trigger] views(needed@).contains(x) implies (
                old_needed.contains(x) || x == nv) by {
                let k = choose|k: int| 0 <= k < views(needed@).len() && views(needed@)[k] == x;
                if k < old_needed.len() {
                    assert(old_needed[k] == x);
                }
            }
            assert forall|x: Seq<char>| old_needed.contains(x) implies #[trigger] views(
                needed@,
            ).contains(x) by {
                let k = choose|k: int| 0 <= k < old_needed.len() && old_needed[k] == x;
                assert(views(needed@)[k] == x);
            }
            assert(views(needed@)[old_needed.len() as int] == nv);
            assert forall|x: Seq<char>| seen@.dom().contains(x) <==> views(needed@).to_set().contains(x) by {
                if x == nv {
                } else {
                    assert(seen@.dom().contains(x) <==> old_needed.contains(x));
                }
            }
            assert(seen@.dom() =~= views(needed@).to_set());
        }
        match dep_map.get(name.as_str()) {
            None => {
                proof {
                    assert(!n0.contains(nv));
                    assert(!d.contains_key(nv));
                    assert(missing_from(d, u, old_stack, n0) == Some(nv));
                }
                return Err(ValidationError::ModuleNotFound { name });
            },
            Some(deps) => {
                proof {
                    assert(d[nv] == views(deps@));
                    assert(views(deps@).take(0) =~= Seq::<Seq<char>>::empty());
                    assert(views(stack@) == rest);
                }
                let mut j: usize = 0;
                while j < deps.len()
                    invariant
                        d == dep_view(dep_map@),
                        t == views(targets@),
                        u == t.to_set().union(dep_names(d)),
                        dep_map@.contains_key(nv),
                        d[nv] == views(deps@),
                        j <= deps@.len(),
                        seen@.dom() == views(needed@).to_set(),
                        views(needed@).contains(nv),
                        required(d, t, nv),
                        forall|x: Seq<char>| #[trigger] views(stack@).contains(x) ==> required(
                            d,
                            t,
                            x,
                        ),
                        forall|x: Seq<char>| #[trigger] views(stack@).contains(x) ==> u.contains(
                            x,
                        ),
                        forall|x: Seq<char>|
                            old_stack.contains(x) && x != nv ==> #[trigger] views(
                                stack@,
                            ).contains(x),
                        forall|k: int|
                            0 <= k < j ==> views(needed@).contains(#[trigger] views(deps@)[k])
                                || views(stack@).contains(views(deps@)[k]),
                        views(stack@) == push_new(rest, views(deps@).take(j as int), views(needed@).to_set()),
                    decreases deps@.len() - j,
                {
                    let ghost before = views(stack@);
                    let ghost y = views(deps@)[j as int];
                    proof {
                        assert(d[nv].contains(y)) by {
                            assert(d[nv][j as int] == y);
                        }
                        lemma_required_step(d, t, nv, y);
                        assert(dep_names(d).contains(y));
                    }
                    if !seen.contains_key(deps[j].as_str()) {
                        let c = deps[j].clone();
                        stack.push(c);
                        proof {
                            assert(views(deps@).take(j + 1).drop_last() =~= views(deps@).take(j as int));
                            assert(views(deps@).take(j + 1).last() == y);
                            assert(!views(needed@).to_set().contains(y));
                            assert(views(stack@) =~= before.push(y));
                            assert(views(stack@)[before.len() as int] == y);
                            assert forall|x: Seq<char>| before.contains(x) implies #[trigger] views(
                                stack@,
                            ).contains(x) by {
                                let k = choose|k: int| 0 <= k < before.len() && before[k] == x;
                                assert(views(stack@)[k] == x);
                            }
                            assert forall|x: Seq<char>| #[trigger] views(stack@).contains(x) implies (
                                before.contains(x) || x == y) by {
                                let k = choose|k: int|
                                    0 <= k < views(stack@).len() && views(stack@)[k] == x;
                                if k < before.len() {
                                    assert(before[k] == x);
                                }
                            }
                        }
                    } else {
                        proof {
                            assert(views(needed@).to_set().contains(y));
                            assert(views(deps@).take(j + 1).drop_last() =~= views(deps@).take(j as int));
                            assert(views(deps@).take(j + 1).last() == y);
                        }
                    }
                    j += 1;
                }
                proof {
                    assert forall|x: Seq<char>, y: Seq<char>|
                        views(needed@).contains(x) && #[trigger] d[x].contains(y) implies views(
                            needed@,
                        ).contains(y) || views(stack@).contains(y) by {
                        if x == nv {
                            let k = choose|k: int| 0 <= k < d[nv].len() && d[nv][k] == y;
                            assert(views(deps@)[k] == y);
                        } else {
                            assert(old_needed.contains(x));
                        }
                    }
                    views(needed@).unique_seq_to_set();
                    lemma_len_subset(views(needed@).to_set(), u);
                    assert(views(deps@).take(deps@.len() as int) =~= views(deps@));
                    assert(views(needed@).to_set() =~= n0.insert(nv));
                    assert(!n0.contains(nv));
                    assert(d.contains_key(nv));
                    assert(u.finite());
                    assert(n0.subset_of(u));
                    assert(rest =~= old_stack.drop_last());
                    assert(old_stack.len() > 0 && old_stack.last() == nv);
                    assert forall|k: int| 0 <= k < old_stack.len() implies u.contains(#[trigger] old_stack[k]) by {
                        assert(old_stack.contains(old_stack[k]));
                    }
                    lemma_missing_from_step(d, u, old_stack, n0);
                    assert(old_needed.to_set() =~= n0);
                    lemma_push_set(old_needed, nv);
                    lemma_needed_from_step(d, u, old_stack, old_needed);
                }
            },
        }
    }
    proof {
        let s = views(needed@);
        assert(needed_from(d, u, views(stack@), s) == s);
        assert forall|x: Seq<char>| #[trigger] required(d, t, x) implies s.contains(x) by {
            let t0 = choose|t0: Seq<char>| #[trigger] t.contains(t0) && depends_on(d, t0, x);
            let p = choose|p: Seq<Seq<char>>| #[trigger] dep_chain(d, p) && p[0] == t0 && p.last() == x;
            lemma_closed_holds_chain(d, s, p);
        }
    }
    Ok(needed)
}

/// `order` lists every module that `targets` require, each once, and no
/// module in it depends directly on a module that comes after it.
pub open spec fn is_load_order(
    d: Map<Seq<char>, Seq<Seq<char>>>,
    targets: Seq<Seq<char>>,
    order: Seq<Seq<char>>,
) -> bool {
    &&& order.no_duplicates()
    &&& forall|x: Seq<char>| #[trigger] order.contains(x) <==> required(d, targets, x)
    &&& forall|a: int, b: int|
        #![trigger order[a], order[b]]
        0 <= a < b < order.len() ==> !(d.contains_key(order[a]) && d[order[a]].contains(
            order[b],
        ))
}

/// `e` is a reason why no load order exists: the first undeclared module
/// that the search for needed modules meets, or a cycle of required modules:
/// a closed sequence of distinct modules (but for the closing one), each a
/// direct dependency of the one before, the one that the cycle search finds
/// in the dependency graph of the needed modules.
pub open spec fn is_order_error(
    d: Map<Seq<char>, Seq<Seq<char>>>,
    targets: Seq<Seq<char>>,
    e: ValidationError,
) -> bool {
    match e {
        ValidationError::ModuleNotFound { name } => {
            &&& required(d, targets, name@)
            &&& !d.contains_key(name@)
            &&& first_missing_module(d, targets) == Some(name@)
        },
        ValidationError::CyclicDependency { cycle } => {
            &&& all_declared(d, targets)
            &&& views(cycle@).len() >= 2
            &&& views(cycle@)[0] == views(cycle@).last()
            &&& forall|k: int|
                0 <= k < cycle@.len() ==> required(d, targets, #[trigger] views(cycle@)[k])
            &&& forall|k1: int, k2: int|
                0 <= k1 < cycle@.len() && 0 <= k2 < cycle@.len() ==> depends_on(
                    d,
                    #[trigger] views(cycle@)[k1],
                    #[trigger] views(cycle@)[k2],
                )
            &&& dep_chain(d, views(cycle@))
            &&& views(cycle@).drop_last().no_duplicates()
            &&& is_sorted_cycle(d, needed_order(d, targets), views(cycle@))
        },
        _ => false,
    }
}

/// The load order that the topological sort of the dependency graph of the
/// modules that `targets` need gives: the sort reversed, by name.
pub open spec fn sorted_names(d: Map<Seq<char>, Seq<Seq<char>>>, targets: Seq<Seq<char>>) -> Seq<
    Seq<char>,
> {
    let nn = needed_order(d, targets);
    match toposort_of(nn.len(), edges_of(name_graph(d, nn))) {
        Ok(o) => names_of_ids(nn, o.reverse()),
        Err(_) => Seq::empty(),
    }
}

/// The number of dependencies that the modules `nn` declare, all told.
pub open spec fn listed_total(d: Map<Seq<char>, Seq<Seq<char>>>, nn: Seq<Seq<char>>) -> nat
    decreases nn.len(),
{
    if nn.len() == 0 {
        0
    } else {
        listed_total(d, nn.drop_last()) + d[nn.last()].len()
    }
}

/// The modules that `targets` need, and the dependencies that they declare,
/// each fewer than `u32::MAX`: the bound of `petgraph`'s node and edge
/// indices.
pub open spec fn fits_graph(d: Map<Seq<char>, Seq<Seq<char>>>, targets: Seq<Seq<char>>) -> bool {
    forall|nn: Seq<Seq<char>>|
        #[trigger] is_needed_set(d, targets, nn) ==> nn.len() < u32::MAX && listed_total(d, nn)
            < u32::MAX
}

/// Each module of a prefix of `nn` adds its own dependencies to the total.
pub proof fn lemma_listed_total_prefix(d: Map<Seq<char>, Seq<Seq<char>>>, nn: Seq<Seq<char>>, i: int)
    requires
        0 <= i < nn.len(),
    ensures
        listed_total(d, nn.take(i + 1)) == listed_total(d, nn.take(i)) + d[nn[i]].len(),
        listed_total(d, nn.take(i + 1)) <= listed_total(d, nn),
    decreases nn.len(),
{
    assert(nn.take(i + 1).drop_last() =~= nn.take(i));
    if i + 1 < nn.len() {
        lemma_listed_total_prefix(d, nn.drop_last(), i);
        assert(nn.drop_last().take(i + 1) =~= nn.take(i + 1));
        assert(nn.drop_last().take(i) =~= nn.take(i));
    } else {
        assert(nn.take(i + 1) =~= nn);
    }
}

/// The position of `x` in `s`, which holds it once.
proof fn lemma_position(s: Seq<Seq<char>>, k: int)
    requires
        s.no_duplicates(),
        0 <= k < s.len(),
    ensures
        s.index_of(s[k]) == k,
{
    assert(s.contains(s[k]));
    let i = s.index_of(s[k]);
    assert(0 <= i < s.len() && s[i] == s[k]);
}

/// The modules that `targets` need, ordered so that each comes after all of
/// its dependencies; or a needed module that `dep_map` does not declare; or
/// a cycle among the needed modules. The order is the reverse of the
/// topological sort that `petgraph` makes of their dependency graph; at a
/// cycle, the cycle is sought inside the strongly connected component of the
/// module at which the sort met it.
#[verifier::rlimit(60)]
pub fn resolve_module_order(dep_map: &StringHashMap<Vec<String>>, targets: &[String]) -> (r:
    Result<Vec<String>, ValidationError>)
    requires
        dep_map@.dom().finite(),
        fits_graph(dep_view(dep_map@), views(targets@)),
    ensures
        r is Ok <==> all_declared(dep_view(dep_map@), views(targets@)) && !has_dep_cycle(
            dep_view(dep_map@),
            views(targets@),
        ),
        match r {
            Ok(order) => is_load_order(dep_view(dep_map@), views(targets@), views(order@)),
            Err(e) => is_order_error(dep_view(dep_map@), views(targets@), e),
        },
        r matches Ok(order) ==> views(order@) == sorted_names(dep_view(dep_map@), views(targets@)),
{
    let ghost d = dep_view(dep_map@);
    let ghost t = views(targets@);
    let needed = match collect_transitive_deps(dep_map, targets) {
        Ok(needed) => needed,
        Err(e) => {
            proof {
                assert(dep_map@.dom() =~= d.dom());
            }
            return Err(e);
        },
    };
    let ghost nn = views(needed@);
    let ghost ng = name_graph(d, nn);
    proof {
        assert(is_needed_set(d, t, nn));
        lemma_needed_closed(d, t, nn);
    }
    let mut graph = pg_new();
    let mut indices: StringHashMap<usize> = StringHashMap::new();
    let mut i: usize = 0;
    while i < needed.len()
        invariant
            nn == views(needed@),
            nn.no_duplicates(),
            nn.len() < u32::MAX,
            i <= nn.len(),
            pg_nodes(graph) == nn.take(i as int),
            pg_edges(graph) == Seq::<(usize, usize)>::empty(),
            forall|k: int|
                #![trigger nn[k]]
                0 <= k < i ==> indices@.contains_key(nn[k]) && indices@[nn[k]] == k,
            forall|x: Seq<char>| #[trigger] indices@.contains_key(x) ==> nn.take(i as int).contains(x),
        decreases nn.len() - i,
    {
        let ghost before = indices@;
        let id = pg_add_node(&mut graph, needed[i].clone());
        indices.insert(needed[i].clone(), id);
        proof {
            assert(nn[i as int] == needed@[i as int]@);
            assert(nn.take(i + 1) =~= nn.take(i as int).push(nn[i as int]));
            assert forall|k: int| #![trigger nn[k]] 0 <= k < i + 1 implies indices@.contains_key(nn[k])
                && indices@[nn[k]] == k by {
                if k < i {
                    assert(nn[k] != nn[i as int]);
                    assert(before.contains_key(nn[k]));
                }
            }
            assert forall|x: Seq<char>| #[trigger] indices@.contains_key(x) implies nn.take(
                i + 1,
            ).contains(x) by {
                if x == nn[i as int] {
                    assert(nn.take(i + 1)[i as int] == x);
                } else {
                    assert(before.contains_key(x));
                    let k = choose|k: int| 0 <= k < i && nn.take(i as int)[k] == x;
                    assert(nn.take(i + 1)[k] == x);
                }
            }
        }
        i += 1;
    }
    proof {
        assert(nn.take(nn.len() as int) =~= nn);
        assert(nn.take(0) =~= Seq::<Seq<char>>::empty());
    }
    let ghost idx = indices@;
    let mut i: usize = 0;
    while i < needed.len()
        invariant
            d == dep_view(dep_map@),
            nn == views(needed@),
            ng == name_graph(d, nn),
            is_needed_set(d, t, nn),
            nn.no_duplicates(),
            nn.len() < u32::MAX,
            listed_total(d, nn) < u32::MAX,
            forall|x: Seq<char>, y: Seq<char>|
                nn.contains(x) && #[trigger] d[x].contains(y) ==> d.contains_key(x) && nn.contains(
                    y,
                ),
            i <= nn.len(),
            indices@ == idx,
            forall|k: int|
                #![trigger nn[k]]
                0 <= k < nn.len() ==> idx.contains_key(nn[k]) && idx[nn[k]] == k,
            pg_nodes(graph) == nn,
            pg_edges(graph) == edges_upto(ng, i as int),
            pg_edges(graph).len() == listed_total(d, nn.take(i as int)),
            pg_wf(graph),
        decreases nn.len() - i,
    {
        proof {
            assert(nn.contains(nn[i as int]));
            lemma_listed_total_prefix(d, nn, i as int);
        }
        let ghost e0 = pg_edges(graph);
        match dep_map.get(needed[i].as_str()) {
            Some(deps) => {
                let mut j: usize = 0;
                proof {
                    assert(ng[i as int].take(0).map_values(|t: usize| (i, t)) =~= Seq::<
                        (usize, usize),
                    >::empty());
                    assert(e0 + Seq::<(usize, usize)>::empty() =~= e0);
                }
                while j < deps.len()
                    invariant
                        d == dep_view(dep_map@),
                        nn == views(needed@),
                        ng == name_graph(d, nn),
                        nn.no_duplicates(),
                        i < nn.len(),
                        d[nn[i as int]] == views(deps@),
                        nn.contains(nn[i as int]),
                        forall|x: Seq<char>, y: Seq<char>|
                            nn.contains(x) && #[trigger] d[x].contains(y) ==> d.contains_key(x)
                                && nn.contains(y),
                        j <= deps@.len(),
                        indices@ == idx,
                        forall|k: int|
                            #![trigger nn[k]]
                            0 <= k < nn.len() ==> idx.contains_key(nn[k]) && idx[nn[k]] == k,
                        pg_nodes(graph) == nn,
                        e0.len() + deps@.len() < u32::MAX,
                        pg_edges(graph) == e0 + ng[i as int].take(j as int).map_values(
                            |t: usize| (i, t),
                        ),
                        pg_wf(graph),
                    decreases deps@.len() - j,
                {
                    let ghost y = views(deps@)[j as int];
                    proof {
                        assert(d[nn[i as int]].contains(y)) by {
                            assert(d[nn[i as int]][j as int] == y);
                        }
                        assert(nn.contains(y));
                        assert(deps@[j as int]@ == y);
                    }
                    match indices.get(deps[j].as_str()) {
                        Some(to) => {
                            let ghost eb = pg_edges(graph);
                            proof {
                                let m = choose|m: int| 0 <= m < nn.len() && nn[m] == y;
                                assert(idx.contains_key(nn[m]) && idx[nn[m]] == m);
                                lemma_position(nn, m);
                                assert(ng[i as int][j as int] == *to);
                                assert(*to < nn.len());
                            }
                            pg_add_edge(&mut graph, i, *to);
                            proof {
                                let ea = pg_edges(graph);
                                assert(ng[i as int].take(j + 1).map_values(|t: usize| (i, t))
                                    =~= ng[i as int].take(j as int).map_values(|t: usize| (i, t)).push(
                                    (i, *to),
                                ));
                                assert(ea =~= e0 + ng[i as int].take(j + 1).map_values(
                                    |t: usize| (i, t),
                                ));
                                assert forall|k: int|
                                    #![trigger ea[k]]
                                    0 <= k < ea.len() implies ea[k].0 < nn.len() && ea[k].1
                                    < nn.len() by {
                                    if k < eb.len() {
                                        assert(ea[k] == eb[k]);
                                    }
                                }
                            }
                        },
                        None => {
                            proof {
                                let m = choose|m: int| 0 <= m < nn.len() && nn[m] == y;
                                assert(idx.contains_key(nn[m]));
                            }
                        },
                    }
                    j += 1;
                }
                proof {
                    assert(ng[i as int].take(deps@.len() as int) =~= ng[i as int]);
                    assert(nn.take(i + 1) =~= nn.take(i as int).push(nn[i as int]));
                }
            },
            None => {
                proof {
                    assert(required(d, t, nn[i as int]));
                    assert(dep_map@.dom() =~= d.dom());
                }
            },
        }
        i += 1;
    }
    proof {
        assert(ng.len() == nn.len());
        lemma_graph_of_rows(graph, ng);
        assert forall|k: int| 0 <= k < nn.len() implies #[trigger] ng[k] == ids_of(idx, d[nn[k]]) by {
            let ys = d[nn[k]];
            assert forall|j: int| 0 <= j < ys.len() implies ids_of(idx, ys)[j] == ng[k][j] by {
                assert(nn.contains(nn[k]));
                assert(ys.contains(ys[j]));
                assert(nn.contains(ys[j]));
                let m = choose|m: int| 0 <= m < nn.len() && nn[m] == ys[j];
                assert(idx[nn[m]] == m);
                lemma_position(nn, m);
            }
            assert(ids_of(idx, ys) =~= ng[k]);
        }
        assert(is_dep_graph(d, nn, idx, ng));
        lemma_cycle_match(d, t, nn, idx, ng);
    }
    match pg_toposort(&graph) {
        Ok(sorted) => {
            let mut order: Vec<String> = Vec::new();
            let mut k: usize = sorted.len();
            while k > 0
                invariant
                    pg_nodes(graph) == nn,
                    sorted@.len() == nn.len(),
                    forall|k2: int| 0 <= k2 < sorted@.len() ==> #[trigger] sorted@[k2] < nn.len(),
                    k <= sorted@.len(),
                    order@.len() == sorted@.len() - k,
                    forall|k2: int|
                        0 <= k2 < order@.len() ==> #[trigger] order@[k2]@ == nn[sorted@[sorted@.len()
                            - 1 - k2] as int],
                decreases k,
            {
                k -= 1;
                let w = pg_weight(&graph, sorted[k]);
                order.push(w);
            }
            proof {
                let n = sorted@.len();
                let o = views(order@);
                let ids = sorted@.reverse();
                assert forall|a: int| 0 <= a < o.len() implies #[trigger] o[a] == nn[ids[a] as int] by {
                    assert(order@[a]@ == nn[sorted@[n - 1 - a] as int]);
                }
                assert forall|a: int, b: int| 0 <= a < b < o.len() implies o[a] != o[b] by {
                    assert(sorted@[n - 1 - a] != sorted@[n - 1 - b]);
                }
                lemma_distinct_covers(sorted@, nn.len() as usize);
                assert forall|x: Seq<char>| #[trigger] o.contains(x) <==> required(d, t, x) by {
                    if o.contains(x) {
                        let a = choose|a: int| 0 <= a < o.len() && o[a] == x;
                        assert(nn.contains(nn[ids[a] as int]));
                    }
                    if required(d, t, x) {
                        assert(nn.contains(x));
                        let m = choose|m: int| 0 <= m < nn.len() && nn[m] == x;
                        assert(sorted@.contains(m as usize));
                        let b = choose|b: int| 0 <= b < n && sorted@[b] == m as usize;
                        assert(o[n - 1 - b] == x);
                    }
                }
                assert forall|a: int, b: int|
                    #![trigger o[a], o[b]]
                    0 <= a < b < o.len() implies !(d.contains_key(o[a]) && d[o[a]].contains(o[b])) by {
                    if d.contains_key(o[a]) && d[o[a]].contains(o[b]) {
                        super::graph_link::lemma_edges_match(d, t, nn, idx, ng);
                        assert(nn.contains(o[a]) && nn.contains(o[b])) by {
                            assert(nn.contains(nn[ids[a] as int]));
                            assert(nn.contains(nn[ids[b] as int]));
                        }
                        assert(edge(ng, ids[a], ids[b]));
                        assert(ids[a] == sorted@[n - 1 - a] && ids[b] == sorted@[n - 1 - b]);
                    }
                }
                assert(pg_edges(graph) == edges_of(ng));
                assert(o =~= names_of_ids(nn, ids));
            }
            Ok(order)
        },
        Err(node) => {
            let nodes = cycle_through(&graph, node);
            let mut cycle: Vec<String> = Vec::new();
            let mut k: usize = 0;
            while k < nodes.len()
                invariant
                    pg_nodes(graph) == nn,
                    forall|k2: int| 0 <= k2 < nodes@.len() ==> #[trigger] nodes@[k2] < nn.len(),
                    k <= nodes@.len(),
                    cycle@.len() == k,
                    forall|k2: int| 0 <= k2 < k ==> #[trigger] cycle@[k2]@ == nn[nodes@[k2] as int],
                decreases nodes@.len() - k,
            {
                let w = pg_weight(&graph, nodes[k]);
                cycle.push(w);
                k += 1;
            }
            proof {
                let cv = views(cycle@);
                let ids = nodes@;
                assert(cv =~= names_of_ids(nn, ids));
                assert forall|k2: int| 0 <= k2 < cv.len() implies required(d, t, #[trigger] cv[k2]) by {
                    assert(nn.contains(nn[ids[k2] as int]));
                }
                assert forall|k1: int, k2: int|
                    0 <= k1 < cv.len() && 0 <= k2 < cv.len() implies depends_on(
                    d,
                    #[trigger] cv[k1],
                    #[trigger] cv[k2],
                ) by {
                    assert(reaches(ng, ids[k1], ids[k2]));
                    lemma_reaches_match(d, t, nn, idx, ng, ids[k1], ids[k2]);
                }
                assert(cv[0] == cv.last());
                lemma_path_names(d, t, nn, idx, ng, ids);
                let w = choose|w: usize| #[trigger] edge(ng, node, w) && reaches(ng, w, node);
                assert(on_cycle(ng, node));
                assert(is_sorted_cycle(d, nn, cv));
            }
            Err(ValidationError::CyclicDependency { cycle })
        },
    }
}

} // verus!
