//! What holds of graphs across the operations of [`super::DiGraph`].
use vstd::prelude::*;

use super::GraphModel;
use super::order::closed_walk_in;
use super::paths::{
    edge, has_cycle, is_path, is_scc_decomposition, is_scc_partition, lemma_path_concat,
    lemma_path_edge, lemma_path_reaches, lemma_reaches_trans, path_step, reaches,
};

verus! {

/// A node added under a name is found under that name, and its label under
/// its id: `get_id` and `get_label` read back what `add_node` wrote.
pub proof fn law_added_node_is_found<L>(
    before: GraphModel<L>,
    after: GraphModel<L>,
    name: Seq<char>,
    label: L,
    id: usize,
)
    requires
        before.valid(),
        id == before.labels.len(),
        after.succ == before.succ.push(Seq::<usize>::empty()),
        after.labels == before.labels.push(label),
        after.ids == before.ids.insert(name, id),
    ensures
        after.ids.contains_key(name),
        after.ids[name] == id,
        id < after.labels.len(),
        after.labels[id as int] == label,
        after.succ[id as int] == Seq::<usize>::empty(),
{
}

/// In an order where each edge from an earlier to a later node comes back
/// by a path, a graph without cycles has no edge from an earlier node to a
/// later one: every node comes after the nodes it has edges to.
pub proof fn law_acyclic_order_puts_targets_first(succ: Seq<Seq<usize>>, ids: Seq<usize>)
    requires
        !has_cycle(succ),
        forall|a: int, b: int|
            0 <= a < b < ids.len() && #[trigger] edge(succ, ids[a], ids[b]) ==> reaches(
                succ,
                ids[b],
                ids[a],
            ),
    ensures
        forall|a: int, b: int| 0 <= a < b < ids.len() ==> !#[trigger] edge(succ, ids[a], ids[b]),
{
    assert forall|a: int, b: int| 0 <= a < b < ids.len() implies !#[trigger] edge(
        succ,
        ids[a],
        ids[b],
    ) by {
        if edge(succ, ids[a], ids[b]) {
            assert(reaches(succ, ids[b], ids[a]));
            assert(has_cycle(succ));
        }
    }
}

/// In a graph without cycles every strongly connected component is a
/// single node without an edge to itself.
pub proof fn law_acyclic_components_are_single(succ: Seq<Seq<usize>>, cs: Seq<Seq<usize>>)
    requires
        is_scc_decomposition(succ, cs),
        !has_cycle(succ),
    ensures
        forall|c: int| 0 <= c < cs.len() ==> #[trigger] cs[c].len() == 1 && !edge(
            succ,
            cs[c][0],
            cs[c][0],
        ),
{
    assert forall|c: int| 0 <= c < cs.len() implies #[trigger] cs[c].len() == 1 && !edge(
        succ,
        cs[c][0],
        cs[c][0],
    ) by {
        let x = cs[c][0];
        if edge(succ, x, x) {
            assert(reaches(succ, x, x));
            assert(has_cycle(succ));
        }
        if cs[c].len() > 1 {
            let y = cs[c][1];
            assert(x != y);
            assert(reaches(succ, x, y));
            assert(reaches(succ, y, x));
            let p = choose|p: Seq<usize>| #[trigger] is_path(succ, p) && p[0] == x && p.last() == y;
            assert(p.len() >= 2) by {
                if p.len() == 1 {
                    assert(p[0] == p.last());
                }
            }
            lemma_path_edge(succ, p, 0);
            lemma_path_reaches(succ, p, 1, p.len() - 1);
            lemma_reaches_trans(succ, p[1], y, x);
            assert(edge(succ, x, p[1]) && reaches(succ, p[1], x));
            assert(has_cycle(succ));
        }
    }
}


/// From any member of a strongly connected component, a closed walk inside
/// the component exists exactly when the component has more than one node
/// or the member has an edge to itself: so the cycle search started there
/// finds a cycle exactly then.
pub proof fn law_component_has_closed_walk(succ: Seq<Seq<usize>>, cs: Seq<Seq<usize>>, c: int, k: int)
    requires
        is_scc_partition(succ, cs),
        0 <= c < cs.len(),
        0 <= k < cs[c].len(),
    ensures
        closed_walk_in(succ, cs[c][k], cs[c].to_set()) <==> (cs[c].len() > 1 || edge(
            succ,
            cs[c][k],
            cs[c][k],
        )),
{
    let x = cs[c][k];
    if closed_walk_in(succ, x, cs[c].to_set()) {
        let p = choose|p: Seq<usize>|
            #[trigger] is_path(succ, p) && p.len() >= 2 && p[0] == x && p.last() == x && (forall|
                j: int,
            | 1 <= j < p.len() ==> cs[c].to_set().contains(#[trigger] p[j]));
        lemma_path_edge(succ, p, 0);
        assert(cs[c].to_set().contains(p[1]));
        if cs[c].len() <= 1 {
            let m = choose|m: int| 0 <= m < cs[c].len() && cs[c][m] == p[1];
            assert(m == k);
        }
    }
    if edge(succ, x, x) {
        let p = seq![x, x];
        assert(path_step(succ, p, 0));
        assert(is_path(succ, p));
        assert(cs[c].to_set().contains(p[1]));
    } else if cs[c].len() > 1 {
        let k2 = if k == 0 {
            1int
        } else {
            0int
        };
        let y = cs[c][k2];
        assert(x != y);
        assert(reaches(succ, x, y));
        assert(reaches(succ, y, x));
        let p1 = choose|p: Seq<usize>| #[trigger] is_path(succ, p) && p[0] == x && p.last() == y;
        let p2 = choose|p: Seq<usize>| #[trigger] is_path(succ, p) && p[0] == y && p.last() == x;
        lemma_path_concat(succ, p1, p2);
        let r = p1 + p2.drop_first();
        assert(p1.len() >= 2) by {
            if p1.len() == 1 {
                assert(p1[0] == p1.last());
            }
        }
        assert forall|j: int| 1 <= j < r.len() implies cs[c].to_set().contains(#[trigger] r[j]) by {
            lemma_path_reaches(succ, r, 0, j);
            lemma_path_reaches(succ, r, j, r.len() - 1);
            assert(reaches(succ, cs[c][k], r[j]) && reaches(succ, r[j], cs[c][k]));
            assert(cs[c].contains(r[j]));
        }
        assert(is_path(succ, r) && r.len() >= 2 && r[0] == x && r.last() == x);
    }
}

/// From a member of a strongly connected component, the cycle search inside
/// the component finds a cycle exactly when the component has more than one
/// node or the member has an edge to itself: `found` stands for the outcome
/// of `find_cycle_in_scc`, of which its contract gives the two premises.
pub proof fn law_component_search_finds(
    succ: Seq<Seq<usize>>,
    cs: Seq<Seq<usize>>,
    c: int,
    k: int,
    found: bool,
)
    requires
        is_scc_partition(succ, cs),
        0 <= c < cs.len(),
        0 <= k < cs[c].len(),
        closed_walk_in(succ, cs[c][k], cs[c].to_set()) ==> found,
        found ==> exists|u: usize, w: usize|
            #[trigger] edge(succ, u, w) && (u == cs[c][k] || cs[c].contains(u)) && cs[c].contains(w),
    ensures
        found <==> (cs[c].len() > 1 || edge(succ, cs[c][k], cs[c][k])),
{
    law_component_has_closed_walk(succ, cs, c, k);
    if found && cs[c].len() <= 1 {
        let (u, w) = choose|u: usize, w: usize|
            #[trigger] edge(succ, u, w) && (u == cs[c][k] || cs[c].contains(u)) && cs[c].contains(w);
        assert(cs[c].len() == 1);
        assert(k == 0);
        if cs[c].contains(u) {
            let m = choose|m: int| 0 <= m < cs[c].len() && cs[c][m] == u;
            assert(m == 0);
        }
        let m2 = choose|m: int| 0 <= m < cs[c].len() && cs[c][m] == w;
        assert(m2 == 0);
        assert(u == cs[c][k] && w == cs[c][k]);
    }
}

} // verus!
