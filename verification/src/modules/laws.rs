//! What holds of module resolution as a whole.
use vstd::prelude::*;

use vstd::seq_lib::seq_to_set_is_finite;
use vstd::set_lib::lemma_len_subset;

use super::graph_link::{is_sorted_cycle, name_graph};
use super::resolve::{
    all_declared, dep_chain, dep_names, dep_step, depends_on, has_dep_cycle, is_load_order,
    lemma_dep_names_finite, lemma_depends_step, lemma_push_set, lemma_required_step, needed_from,
    needed_order, push_new, required, sorted_names,
};

verus! {

/// `d` and `d2` agree on every module that `targets` require under `d`.
pub open spec fn agree_on_required(
    d: Map<Seq<char>, Seq<Seq<char>>>,
    d2: Map<Seq<char>, Seq<Seq<char>>>,
    targets: Seq<Seq<char>>,
) -> bool {
    forall|x: Seq<char>|
        #[trigger] required(d, targets, x) ==> (d.contains_key(x) <==> d2.contains_key(x)) && (
        d.contains_key(x) ==> d[x] == d2[x])
}

/// A chain under `d` from a required module is a chain under `d2`, and
/// every module on it is required.
proof fn lemma_chain_forward(
    d: Map<Seq<char>, Seq<Seq<char>>>,
    d2: Map<Seq<char>, Seq<Seq<char>>>,
    t: Seq<Seq<char>>,
    p: Seq<Seq<char>>,
)
    requires
        agree_on_required(d, d2, t),
        dep_chain(d, p),
        required(d, t, p[0]),
    ensures
        dep_chain(d2, p),
        forall|i: int| 0 <= i < p.len() ==> required(d, t, #[trigger] p[i]),
    decreases p.len(),
{
    if p.len() > 1 {
        let q = p.drop_last();
        assert forall|i: int| 0 <= i < q.len() - 1 implies #[trigger] dep_step(d, q, i) by {
            assert(dep_step(d, p, i));
        }
        lemma_chain_forward(d, d2, t, q);
        let k = p.len() - 2;
        assert(dep_step(d, p, k));
        assert(required(d, t, q[k]));
        lemma_required_step(d, t, p[k], p[k + 1]);
        assert forall|i: int| 0 <= i < p.len() - 1 implies #[trigger] dep_step(d2, p, i) by {
            assert(dep_step(d2, q, i) || i == k);
            if i < k {
                assert(dep_step(d2, q, i));
            } else {
                assert(required(d, t, p[k]));
                assert(dep_step(d, p, k));
            }
        }
        assert forall|i: int| 0 <= i < p.len() implies required(d, t, #[trigger] p[i]) by {
            if i < p.len() - 1 {
                assert(q[i] == p[i]);
            }
        }
    }
}

/// A chain under `d2` from a module required under `d` is a chain under
/// `d`.
proof fn lemma_chain_back(
    d: Map<Seq<char>, Seq<Seq<char>>>,
    d2: Map<Seq<char>, Seq<Seq<char>>>,
    t: Seq<Seq<char>>,
    p: Seq<Seq<char>>,
)
    requires
        agree_on_required(d, d2, t),
        dep_chain(d2, p),
        required(d, t, p[0]),
    ensures
        dep_chain(d, p),
    decreases p.len(),
{
    if p.len() > 1 {
        let q = p.drop_last();
        assert forall|i: int| 0 <= i < q.len() - 1 implies #[trigger] dep_step(d2, q, i) by {
            assert(dep_step(d2, p, i));
        }
        lemma_chain_back(d, d2, t, q);
        lemma_chain_forward(d, d2, t, q);
        let k = p.len() - 2;
        assert(dep_step(d2, p, k));
        assert(required(d, t, q[k]));
        assert forall|i: int| 0 <= i < p.len() - 1 implies #[trigger] dep_step(d, p, i) by {
            if i < k {
                assert(dep_step(d, q, i));
            }
        }
    }
}

/// Entries of the dependency map beyond what the targets require are
/// ignored: two maps that agree on the required modules require the same
/// modules, declare them alike, have the same cycles and the same load
/// orders.
pub proof fn law_extra_entries_ignored(
    d: Map<Seq<char>, Seq<Seq<char>>>,
    d2: Map<Seq<char>, Seq<Seq<char>>>,
    targets: Seq<Seq<char>>,
)
    requires
        agree_on_required(d, d2, targets),
    ensures
        forall|x: Seq<char>| required(d, targets, x) <==> required(d2, targets, x),
        all_declared(d, targets) <==> all_declared(d2, targets),
        has_dep_cycle(d, targets) <==> has_dep_cycle(d2, targets),
        forall|o: Seq<Seq<char>>| is_load_order(d, targets, o) <==> is_load_order(d2, targets, o),
{
    assert forall|x: Seq<char>| required(d, targets, x) <==> required(d2, targets, x) by {
        if required(d, targets, x) {
            let t0 = choose|t0: Seq<char>| #[trigger] targets.contains(t0) && depends_on(d, t0, x);
            let p = choose|p: Seq<Seq<char>>| #[trigger] dep_chain(d, p) && p[0] == t0 && p.last() == x;
            super::resolve::lemma_target_required(d, targets, t0);
            lemma_chain_forward(d, d2, targets, p);
        }
        if required(d2, targets, x) {
            let t0 = choose|t0: Seq<char>| #[trigger] targets.contains(t0) && depends_on(d2, t0, x);
            let p = choose|p: Seq<Seq<char>>| #[trigger] dep_chain(d2, p) && p[0] == t0 && p.last() == x;
            super::resolve::lemma_target_required(d, targets, t0);
            lemma_chain_back(d, d2, targets, p);
        }
    }
    assert(all_declared(d, targets) <==> all_declared(d2, targets)) by {
        if all_declared(d, targets) {
            assert forall|x: Seq<char>| #[trigger] required(d2, targets, x) implies d2.contains_key(x) by {
                assert(required(d, targets, x));
            }
        }
        if all_declared(d2, targets) {
            assert forall|x: Seq<char>| #[trigger] required(d, targets, x) implies d.contains_key(x) by {
                assert(required(d2, targets, x));
            }
        }
    }
    assert(has_dep_cycle(d, targets) <==> has_dep_cycle(d2, targets)) by {
        if has_dep_cycle(d, targets) {
            let (x, y) = choose|x: Seq<char>, y: Seq<char>|
                required(d, targets, x) && d.contains_key(x) && #[trigger] d[x].contains(y)
                    && depends_on(d, y, x);
            lemma_required_step(d, targets, x, y);
            let p = choose|p: Seq<Seq<char>>| #[trigger] dep_chain(d, p) && p[0] == y && p.last() == x;
            lemma_chain_forward(d, d2, targets, p);
            assert(required(d2, targets, x));
            assert(d2.contains_key(x) && d2[x].contains(y) && depends_on(d2, y, x));
        }
        if has_dep_cycle(d2, targets) {
            let (x, y) = choose|x: Seq<char>, y: Seq<char>|
                required(d2, targets, x) && d2.contains_key(x) && #[trigger] d2[x].contains(y)
                    && depends_on(d2, y, x);
            assert(required(d, targets, x));
            assert(d.contains_key(x) && d[x].contains(y));
            lemma_required_step(d, targets, x, y);
            let p = choose|p: Seq<Seq<char>>| #[trigger] dep_chain(d2, p) && p[0] == y && p.last() == x;
            lemma_chain_back(d, d2, targets, p);
            assert(depends_on(d, y, x));
        }
    }
    assert forall|o: Seq<Seq<char>>| is_load_order(d, targets, o) <==> is_load_order(d2, targets, o) by {
        if is_load_order(d, targets, o) || is_load_order(d2, targets, o) {
            assert forall|a: int, b: int|
                #![trigger o[a], o[b]]
                0 <= a < b < o.len() implies ((d.contains_key(o[a]) && d[o[a]].contains(o[b])) <==> (
                d2.contains_key(o[a]) && d2[o[a]].contains(o[b]))) by {
                assert(o.contains(o[a]));
                assert(required(d, targets, o[a]));
                if !d.contains_key(o[a]) {
                    assert(!d2.contains_key(o[a]));
                }
            }
        }
    }
}

/// In a load order of modules without cycles, every module comes after
/// each of its dependencies.
pub proof fn law_dependencies_load_first(
    d: Map<Seq<char>, Seq<Seq<char>>>,
    targets: Seq<Seq<char>>,
    order: Seq<Seq<char>>,
)
    requires
        is_load_order(d, targets, order),
        !has_dep_cycle(d, targets),
    ensures
        forall|a: int, b: int|
            #![trigger order[a], order[b]]
            0 <= a < order.len() && 0 <= b < order.len() && d.contains_key(order[a])
                && d[order[a]].contains(order[b]) ==> b < a,
{
    assert forall|a: int, b: int|
        #![trigger order[a], order[b]]
        0 <= a < order.len() && 0 <= b < order.len() && d.contains_key(order[a])
            && d[order[a]].contains(order[b]) implies b < a by {
        if b == a {
            assert(order.contains(order[a]));
            super::resolve::lemma_depends_refl(d, order[a]);
            assert(has_dep_cycle(d, targets));
        }
    }
}

/// The stack after pushing the dependencies that `needed` lacks holds only
/// names of the stack before and of those dependencies.
proof fn lemma_push_new_from(stack: Seq<Seq<char>>, deps: Seq<Seq<char>>, needed: Set<Seq<char>>)
    ensures
        forall|k: int|
            0 <= k < push_new(stack, deps, needed).len() ==> stack.contains(
                #[trigger] push_new(stack, deps, needed)[k],
            ) || deps.contains(push_new(stack, deps, needed)[k]),
    decreases deps.len(),
{
    if deps.len() > 0 {
        lemma_push_new_from(stack, deps.drop_last(), needed);
        let s0 = push_new(stack, deps.drop_last(), needed);
        let s1 = push_new(stack, deps, needed);
        assert forall|k: int| 0 <= k < s1.len() implies stack.contains(#[trigger] s1[k]) || deps.contains(
            s1[k],
        ) by {
            if k < s0.len() {
                assert(s1[k] == s0[k]);
                if deps.drop_last().contains(s0[k]) {
                    let m = choose|m: int| 0 <= m < deps.drop_last().len() && deps.drop_last()[m] == s0[k];
                    assert(deps[m] == s0[k]);
                }
            } else {
                assert(s1[k] == deps.last());
                assert(deps[deps.len() - 1] == deps.last());
            }
        }
    }
}

/// A required module is a target or a dependency that some declared module
/// lists.
proof fn lemma_required_listed(d: Map<Seq<char>, Seq<Seq<char>>>, t: Seq<Seq<char>>, x: Seq<char>)
    requires
        required(d, t, x),
    ensures
        t.to_set().union(dep_names(d)).contains(x),
{
    let t0 = choose|t0: Seq<char>| #[trigger] t.contains(t0) && depends_on(d, t0, x);
    let p = choose|p: Seq<Seq<char>>| #[trigger] dep_chain(d, p) && p[0] == t0 && p.last() == x;
    if p.len() > 1 {
        assert(dep_step(d, p, p.len() - 2));
        assert(dep_names(d).contains(x));
    } else {
        assert(t.to_set().contains(x));
    }
}

/// Two maps that agree on the required modules lead the search for needed
/// modules the same way, through required and declared modules only.
proof fn lemma_needed_from_agree(
    d: Map<Seq<char>, Seq<Seq<char>>>,
    d2: Map<Seq<char>, Seq<Seq<char>>>,
    t: Seq<Seq<char>>,
    u: Set<Seq<char>>,
    u2: Set<Seq<char>>,
    stack: Seq<Seq<char>>,
    needed: Seq<Seq<char>>,
)
    requires
        agree_on_required(d, d2, t),
        u.finite(),
        u2.finite(),
        forall|x: Seq<char>| #[trigger] required(d, t, x) ==> u.contains(x) && u2.contains(x),
        forall|k: int| 0 <= k < stack.len() ==> required(d, t, #[trigger] stack[k]),
        forall|k: int| 0 <= k < needed.len() ==> required(d, t, #[trigger] needed[k]) && d.contains_key(
            needed[k],
        ),
        needed.no_duplicates(),
    ensures
        needed_from(d, u, stack, needed) == needed_from(d2, u2, stack, needed),
        forall|k: int|
            0 <= k < needed_from(d, u, stack, needed).len() ==> required(
                d,
                t,
                #[trigger] needed_from(d, u, stack, needed)[k],
            ) && d.contains_key(needed_from(d, u, stack, needed)[k]),
    decreases u.len() - needed.to_set().len(), stack.len(),
{
    if stack.len() > 0 {
        let x = stack.last();
        let rest = stack.drop_last();
        assert(required(d, t, stack[stack.len() - 1]));
        assert(needed.to_set().subset_of(u) && needed.to_set().subset_of(u2)) by {
            assert forall|z: Seq<char>| needed.to_set().contains(z) implies u.contains(z) && u2.contains(z) by {
                let k = choose|k: int| 0 <= k < needed.len() && needed[k] == z;
                assert(required(d, t, needed[k]));
            }
        }
        seq_to_set_is_finite(needed);
        lemma_len_subset(needed.to_set(), u);
        assert forall|k: int| 0 <= k < rest.len() implies required(d, t, #[trigger] rest[k]) by {
            assert(rest[k] == stack[k]);
        }
        if needed.contains(x) {
            lemma_needed_from_agree(d, d2, t, u, u2, rest, needed);
        } else if !d.contains_key(x) {
        } else {
            assert(d2.contains_key(x) && d[x] == d2[x]);
            let ns = needed.push(x);
            lemma_push_set(needed, x);
            lemma_len_subset(needed.to_set().insert(x), u);
            let st2 = push_new(rest, d[x], ns.to_set());
            lemma_push_new_from(rest, d[x], ns.to_set());
            assert forall|k: int| 0 <= k < st2.len() implies required(d, t, #[trigger] st2[k]) by {
                if rest.contains(st2[k]) {
                    let m = choose|m: int| 0 <= m < rest.len() && rest[m] == st2[k];
                    assert(required(d, t, rest[m]));
                } else {
                    lemma_required_step(d, t, x, st2[k]);
                }
            }
            assert forall|k: int| 0 <= k < ns.len() implies required(d, t, #[trigger] ns[k]) && d.contains_key(
                ns[k],
            ) by {
                if k < needed.len() {
                    assert(ns[k] == needed[k]);
                }
            }
            assert(ns.no_duplicates()) by {
                assert forall|a: int, b: int| 0 <= a < b < ns.len() implies ns[a] != ns[b] by {
                    if b == needed.len() {
                        assert(needed.contains(needed[a]));
                    }
                }
            }
            lemma_needed_from_agree(d, d2, t, u, u2, st2, ns);
        }
    }
}

/// A required module is, under a map that agrees on the required modules,
/// a target or a dependency that some declared module lists.
proof fn lemma_required_listed_in(
    d: Map<Seq<char>, Seq<Seq<char>>>,
    d2: Map<Seq<char>, Seq<Seq<char>>>,
    t: Seq<Seq<char>>,
    x: Seq<char>,
)
    requires
        agree_on_required(d, d2, t),
        required(d, t, x),
    ensures
        t.to_set().union(dep_names(d2)).contains(x),
{
    let t0 = choose|t0: Seq<char>| #[trigger] t.contains(t0) && depends_on(d, t0, x);
    let p = choose|p: Seq<Seq<char>>| #[trigger] dep_chain(d, p) && p[0] == t0 && p.last() == x;
    if p.len() > 1 {
        let q = p.drop_last();
        assert forall|i: int| 0 <= i < q.len() - 1 implies #[trigger] dep_step(d, q, i) by {
            assert(dep_step(d, p, i));
        }
        assert(dep_chain(d, q));
        let y = p[p.len() - 2];
        assert(q.last() == y);
        assert(required(d, t, y));
        assert(dep_step(d, p, p.len() - 2));
        assert(d2.contains_key(y) && d2[y] == d[y]);
        assert(dep_names(d2).contains(x));
    } else {
        assert(t.to_set().contains(x));
    }
}

/// Entries of the dependency map beyond what the targets require change
/// nothing that resolution gives: two maps that agree on the required
/// modules need the same modules in the same order, give the same load
/// order, and report the same cycle.
pub proof fn law_extra_entries_keep_the_order(
    d: Map<Seq<char>, Seq<Seq<char>>>,
    d2: Map<Seq<char>, Seq<Seq<char>>>,
    targets: Seq<Seq<char>>,
)
    requires
        agree_on_required(d, d2, targets),
        d.dom().finite(),
        d2.dom().finite(),
    ensures
        needed_order(d, targets) == needed_order(d2, targets),
        sorted_names(d, targets) == sorted_names(d2, targets),
        forall|c: Seq<Seq<char>>|
            is_sorted_cycle(d, needed_order(d, targets), c) <==> is_sorted_cycle(
                d2,
                needed_order(d2, targets),
                c,
            ),
{
    let u = targets.to_set().union(dep_names(d));
    let u2 = targets.to_set().union(dep_names(d2));
    let nn = needed_order(d, targets);
    assert(nn == needed_order(d2, targets) && forall|k: int|
        0 <= k < nn.len() ==> required(d, targets, #[trigger] nn[k]) && d.contains_key(nn[k])) by {
        seq_to_set_is_finite(targets);
        lemma_dep_names_finite(d);
        lemma_dep_names_finite(d2);
        assert forall|x: Seq<char>| #[trigger] required(d, targets, x) implies u.contains(x)
            && u2.contains(x) by {
            lemma_required_listed(d, targets, x);
            lemma_required_listed_in(d, d2, targets, x);
        }
        assert forall|k: int| 0 <= k < targets.len() implies required(d, targets, #[trigger] targets[k]) by {
            super::resolve::lemma_target_required(d, targets, targets[k]);
        }
        lemma_needed_from_agree(d, d2, targets, u, u2, targets, Seq::empty());
    }
    assert(name_graph(d, nn) =~= name_graph(d2, nn)) by {
        assert forall|k: int| 0 <= k < nn.len() implies #[trigger] name_graph(d, nn)[k] == name_graph(
            d2,
            nn,
        )[k] by {
            assert(required(d, targets, nn[k]) && d.contains_key(nn[k]));
        }
    }
}

} // verus!
