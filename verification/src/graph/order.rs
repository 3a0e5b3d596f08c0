//! Cycle search and the dependency-first order of a graph.
use vstd::prelude::*;
use std::collections::HashSet;

use super::paths::{
    edge, has_cycle, in_some_component, is_path, is_scc_decomposition, lemma_distinct_bounded,
    lemma_path_concat, lemma_path_edge, lemma_path_reaches, lemma_reaches_edge,
    lemma_reaches_extend, lemma_reaches_refl, lemma_reaches_trans, path_step, reaches, seqs_of,
};
use vstd::set_lib::FiniteRange;
use super::search::{
    component_of, cycle_from, dfs_cycle, lemma_component_set, lemma_index_in, lemma_scan_self_loop,
    on_cycle, scan_row, ScanOutcome,
};
use super::scc::{finish_order_of, kosaraju_of, lemma_position_of, rooted_by_finish};
use super::{DiGraph, GraphModel};

verus! {

broadcast use vstd::std_specs::hash::group_hash_axioms;

/// A closed walk with at least one edge that starts at `start` and whose
/// later nodes all lie in `s`.
pub open spec fn closed_walk_in(succ: Seq<Seq<usize>>, start: usize, s: Set<usize>) -> bool {
    exists|p: Seq<usize>|
        #[trigger] is_path(succ, p) && p.len() >= 2 && p[0] == start && p.last() == start && (
        forall|k: int| 1 <= k < p.len() ==> s.contains(#[trigger] p[k]))
}

/// `c` holds clones of the labels of the nodes `ids`.
pub open spec fn labels_of<L: Clone>(m: GraphModel<L>, ids: Seq<usize>, c: Seq<L>) -> bool {
    &&& c.len() == ids.len()
    &&& forall|k: int| 0 <= k < ids.len() ==> #[trigger] ids[k] < m.labels.len()
    &&& forall|k: int| 0 <= k < ids.len() ==> cloned::<L>(m.labels[ids[k] as int], #[trigger] c[k])
}

/// `x` lies on a cycle, and no node on a cycle finishes after `x` in the
/// first pass of Kosaraju's algorithm: the node from which `detect_cycle`
/// searches.
pub open spec fn last_on_cycle(succ: Seq<Seq<usize>>, x: usize) -> bool {
    &&& on_cycle(succ, x)
    &&& forall|y: usize|
        #[trigger] on_cycle(succ, y) ==> finish_order_of(succ).index_of(y) <= finish_order_of(
            succ,
        ).index_of(x)
}

/// At most one node is the last on a cycle to finish.
pub proof fn lemma_last_on_cycle_unique(succ: Seq<Seq<usize>>, x: usize, y: usize)
    requires
        finish_order_of(succ).no_duplicates(),
        forall|v: usize| v < succ.len() ==> #[trigger] finish_order_of(succ).contains(v),
        last_on_cycle(succ, x),
        last_on_cycle(succ, y),
    ensures
        x == y,
{
    let fo = finish_order_of(succ);
    let wx = choose|w: usize| #[trigger] edge(succ, x, w) && reaches(succ, w, x);
    let wy = choose|w: usize| #[trigger] edge(succ, y, w) && reaches(succ, w, y);
    assert(fo.contains(x) && fo.contains(y));
    assert(fo.index_of(x) == fo.index_of(y));
    assert(fo[fo.index_of(x)] == x && fo[fo.index_of(y)] == y);
}

/// The first node of the first component with a cycle, in an order of the
/// components that `kosaraju_scc` gives, is the last node on a cycle to
/// finish.
proof fn lemma_first_cyclic_root(succ: Seq<Seq<usize>>, cs: Seq<Seq<usize>>, ci: int)
    requires
        is_scc_decomposition(succ, cs),
        finish_order_of(succ).no_duplicates(),
        forall|v: usize| v < succ.len() ==> #[trigger] finish_order_of(succ).contains(v),
        rooted_by_finish(finish_order_of(succ), cs),
        0 <= ci < cs.len(),
        forall|c: int| 0 <= c < ci ==> #[trigger] cs[c].len() == 1 && !edge(succ, cs[c][0], cs[c][0]),
        on_cycle(succ, cs[ci][0]),
    ensures
        last_on_cycle(succ, cs[ci][0]),
{
    let fo = finish_order_of(succ);
    assert forall|y: usize| #[trigger] on_cycle(succ, y) implies fo.index_of(y) <= fo.index_of(
        cs[ci][0],
    ) by {
        let w = choose|w: usize| #[trigger] edge(succ, y, w) && reaches(succ, w, y);
        assert(in_some_component(cs, y));
        let (c, k) = choose|c: int, k: int|
            0 <= c < cs.len() && 0 <= k < cs[c].len() && #[trigger] cs[c][k] == y;
        if c < ci {
            lemma_reaches_edge(succ, y, w);
            assert(reaches(succ, cs[c][k], w) && reaches(succ, w, cs[c][k]));
            assert(cs[c].contains(w));
            assert(cs[c][0] == y);
            assert(w == y);
            assert(false);
        }
        if c > ci {
            assert(fo.index_of(cs[ci][0]) > fo.index_of(cs[c][0]));
        }
        assert(fo.index_of(cs[c][k]) <= fo.index_of(cs[c][0]));
    }
}

/// A sequence of nodes of `fo` whose positions in `fo` strictly increase
/// and that is at least as long as `fo`, which holds distinct nodes, is `fo`.
pub proof fn lemma_increasing_positions(ids: Seq<usize>, fo: Seq<usize>)
    requires
        fo.no_duplicates(),
        ids.len() >= fo.len(),
        forall|p: int| 0 <= p < ids.len() ==> #[trigger] fo.contains(ids[p]),
        forall|a: int, b: int| 0 <= a < b < ids.len() ==> #[trigger] fo.index_of(ids[a]) < #[trigger] fo.index_of(ids[b]),
    ensures
        ids == fo,
{
    assert forall|p: int| 0 <= p < ids.len() implies fo.index_of(#[trigger] ids[p]) >= p by {
        lemma_position_floor(ids, fo, p);
    }
    assert forall|p: int| 0 <= p < ids.len() implies fo.index_of(#[trigger] ids[p]) <= p + fo.len()
        - ids.len() by {
        lemma_position_ceiling(ids, fo, p);
    }
    assert forall|p: int| 0 <= p < ids.len() implies #[trigger] ids[p] == fo[p] by {
        assert(fo.contains(ids[p]));
        assert(fo[fo.index_of(ids[p])] == ids[p]);
    }
    if ids.len() > 0 {
        assert(fo.index_of(ids[0]) >= 0);
        assert(fo.index_of(ids[0]) <= fo.len() - ids.len());
    }
    assert(ids =~= fo);
}

proof fn lemma_position_floor(ids: Seq<usize>, fo: Seq<usize>, p: int)
    requires
        0 <= p < ids.len(),
        forall|q: int| 0 <= q < ids.len() ==> #[trigger] fo.contains(ids[q]),
        forall|a: int, b: int| 0 <= a < b < ids.len() ==> #[trigger] fo.index_of(ids[a]) < #[trigger] fo.index_of(ids[b]),
    ensures
        fo.index_of(ids[p]) >= p,
    decreases p,
{
    assert(fo.contains(ids[p]));
    if p > 0 {
        lemma_position_floor(ids, fo, p - 1);
        assert(fo.index_of(ids[p - 1]) < fo.index_of(ids[p]));
    }
}

proof fn lemma_position_ceiling(ids: Seq<usize>, fo: Seq<usize>, p: int)
    requires
        0 <= p < ids.len(),
        forall|q: int| 0 <= q < ids.len() ==> #[trigger] fo.contains(ids[q]),
        forall|a: int, b: int| 0 <= a < b < ids.len() ==> #[trigger] fo.index_of(ids[a]) < #[trigger] fo.index_of(ids[b]),
    ensures
        fo.index_of(ids[p]) <= p + fo.len() - ids.len(),
    decreases ids.len() - p,
{
    assert(fo.contains(ids[p]));
    if p < ids.len() - 1 {
        lemma_position_ceiling(ids, fo, p + 1);
        assert(fo.index_of(ids[p]) < fo.index_of(ids[p + 1]));
    } else {
        assert(fo.index_of(ids[p]) < fo.len());
    }
}

/// The components from the `c`-th on, one after another, the last first.
pub open spec fn concat_from_last(cs: Seq<Seq<usize>>, c: int) -> Seq<usize>
    decreases cs.len() - c,
{
    if c >= cs.len() {
        Seq::empty()
    } else {
        concat_from_last(cs, c + 1) + cs[c]
    }
}

/// `ids` is closed (first and last agree) and has at least two entries.
pub open spec fn closed_ids(ids: Seq<usize>) -> bool {
    ids.len() >= 2 && ids[0] == ids.last()
}

/// Walking the pop order backwards from `done[a0]` along `p`, every later node
/// of `p` was finished before `done[a0]`.
pub proof fn lemma_pop_order(
    succ: Seq<Seq<usize>>,
    done: Seq<usize>,
    s: Set<usize>,
    p: Seq<usize>,
    a0: int,
    k: int,
) -> (b: int)
    requires
        is_path(succ, p),
        0 <= a0 < done.len(),
        done[a0] == p[0],
        1 <= k < p.len(),
        forall|j: int| 1 <= j < p.len() ==> s.contains(#[trigger] p[j]),
        forall|a: int, v: usize|
            0 <= a < done.len() && #[trigger] edge(succ, done[a], v) && s.contains(v) ==> exists|
                b: int,
            | 0 <= b < a && #[trigger] done[b] == v,
    ensures
        0 <= b < a0,
        done[b] == p[k],
    decreases k,
{
    lemma_path_edge(succ, p, k - 1);
    if k == 1 {
        assert(edge(succ, done[a0], p[1]));
        choose|b: int| 0 <= b < a0 && #[trigger] done[b] == p[1]
    } else {
        let b1 = lemma_pop_order(succ, done, s, p, a0, k - 1);
        assert(edge(succ, done[b1], p[k]));
        let b2 = choose|b: int| 0 <= b < b1 && #[trigger] done[b] == p[k];
        b2
    }
}

/// Two distinct members of a component lie on a closed walk through the first
/// one whose nodes all belong to the component.
proof fn lemma_component_walk(succ: Seq<Seq<usize>>, cs: Seq<Seq<usize>>, c: int)
    requires
        is_scc_decomposition(succ, cs),
        0 <= c < cs.len(),
        cs[c].len() > 1,
    ensures
        closed_walk_in(succ, cs[c][0], cs[c].to_set()),
{
    let x = cs[c][0];
    let y = cs[c][1];
    assert(x != y);
    assert(reaches(succ, x, y));
    assert(reaches(succ, y, x));
    let p1 = choose|p: Seq<usize>| #[trigger] is_path(succ, p) && p[0] == x && p.last() == y;
    let p2 = choose|p: Seq<usize>| #[trigger] is_path(succ, p) && p[0] == y && p.last() == x;
    lemma_path_concat(succ, p1, p2);
    let r = p1 + p2.drop_first();
    assert(p1.len() >= 2) by {
        if p1.len() == 1 {
            assert(p1[0] == p1.last());
        }
    }
    assert forall|k: int| 1 <= k < r.len() implies cs[c].to_set().contains(#[trigger] r[k]) by {
        lemma_path_reaches(succ, r, 0, k);
        lemma_path_reaches(succ, r, k, r.len() - 1);
        assert(reaches(succ, cs[c][0], r[k]));
        assert(reaches(succ, r[k], cs[c][0]));
        assert(cs[c].contains(r[k]));
    }
    assert(is_path(succ, r) && r.len() >= 2 && r[0] == x && r.last() == x);
}

impl<L: Clone> DiGraph<L> {
    /// Searches the nodes of `scc` depth-first from `start` for a node whose
    /// successor in `scc` is still being explored, and returns the labels of
    /// that stretch of the search stack, closed by the successor's label; a
    /// node with an edge to itself gives its label twice at once. The result
    /// is exactly that of the search model `cycle_from`.
    pub fn find_cycle_in_scc(&self, scc: &[usize], start: usize) -> (cycle: Option<Vec<L>>)
        requires
            self.wf(),
            scc@.len() == 0 || start < self@.succ.len(),
        ensures
            scc@.len() == 0 ==> cycle is None,
            scc@.len() > 0 && closed_walk_in(self@.succ, start, scc@.to_set()) ==> cycle is Some,
            cycle matches Some(c) ==> exists|ids: Seq<usize>|
                closed_ids(ids) && labels_of(self@, ids, c@) && (forall|k: int|
                    0 <= k < ids.len() ==> scc@.contains(#[trigger] ids[k]) && reaches(
                        self@.succ,
                        start,
                        ids[k],
                    )),
            cycle is Some ==> exists|u: usize, w: usize|
                #[trigger] edge(self@.succ, u, w) && (u == start || scc@.contains(u))
                    && scc@.contains(w),
            scc@.len() > 0 ==> (cycle is Some <==> cycle_from(self@.succ, scc@.to_set(), true, start)
                is Some),
            cycle matches Some(c) ==> (cycle_from(self@.succ, scc@.to_set(), true, start) matches Some(
                ids,
            ) && labels_of(self@, ids, c@) && is_path(self@.succ, ids) && ids.drop_last().no_duplicates()),
    {
        if scc.len() == 0 {
            return None;
        }
        let ghost succ = self@.succ;
        let ghost n = succ.len();
        let mut scc_set: HashSet<usize> = HashSet::new();
        let mut t: usize = 0;
        while t < scc.len()
            invariant
                t <= scc@.len(),
                forall|v: usize| #[trigger] scc_set@.contains(v) <==> scc@.subrange(0, t as int).contains(v),
            decreases scc@.len() - t,
        {
            scc_set.insert(scc[t]);
            proof {
                let s0 = scc@.subrange(0, t as int);
                let s1 = scc@.subrange(0, t + 1);
                assert forall|v: usize| #[trigger] scc_set@.contains(v) <==> s1.contains(v) by {
                    if s0.contains(v) {
                        let k = choose|k: int| 0 <= k < s0.len() && s0[k] == v;
                        assert(s1[k] == v);
                    }
                    if s1.contains(v) {
                        let k = choose|k: int| 0 <= k < s1.len() && s1[k] == v;
                        if k < t {
                            assert(s0[k] == v);
                        }
                    }
                    if v == scc@[t as int] {
                        assert(s1[t as int] == v);
                    }
                }
            }
            t += 1;
        }
        proof {
            assert(scc@.subrange(0, scc@.len() as int) =~= scc@);
        }
        let mut stack: Vec<usize> = Vec::new();
        let mut on_stack: HashSet<usize> = HashSet::new();
        let mut visited: HashSet<usize> = HashSet::new();
        stack.push(start);
        on_stack.insert(start);
        visited.insert(start);
        let ghost mut done: Seq<usize> = Seq::empty();
        let ghost mut vseq: Seq<usize> = seq![start];
        let ghost sset = scc@.to_set();
        let ghost target = cycle_from(succ, sset, true, start);
        proof {
            reveal(scan_row);
            reveal(dfs_cycle);
            vstd::seq_lib::seq_to_set_is_finite(scc@);
            lemma_reaches_refl(succ, start);
            assert(stack@ =~= seq![start]);
            assert(on_stack@ =~= stack@.to_set()) by {
                assert(stack@[0] == start);
            }
            assert(visited@ =~= vseq.to_set()) by {
                assert(vseq[0] == start);
            }
        }
        while stack.len() > 0
            invariant
                self.wf(),
                succ == self@.succ,
                n == succ.len(),
                start < n,
                forall|v: usize| #[trigger] scc_set@.contains(v) <==> scc@.contains(v),
                stack@.no_duplicates(),
                done.no_duplicates(),
                forall|a: int, b: int| 0 <= a < stack@.len() && 0 <= b < done.len() ==> stack@[a] != done[b],
                on_stack@ == stack@.to_set(),
                vseq.no_duplicates(),
                visited@ == vseq.to_set(),
                forall|v: usize| #[trigger] vseq.contains(v) <==> (stack@.contains(v) || done.contains(v)),
                visited@.contains(start),
                forall|v: usize| #[trigger] visited@.contains(v) ==> v < n && reaches(succ, start, v) && (v == start || scc@.contains(v)),
                stack@.len() > 0 ==> stack@[0] == start,
                forall|k: int| 0 < k < stack@.len() ==> scc@.contains(#[trigger] stack@[k]),
                forall|k: int| 0 <= k < stack@.len() - 1 ==> #[trigger] edge(succ, stack@[k], stack@[k + 1]),
                sset == scc@.to_set(),
                sset.finite(),
                visited@.finite(),
                target == cycle_from(succ, sset, true, start),
                dfs_cycle(succ, sset, true, stack@, visited@) == target,
                forall|a: int, v: usize|
                    0 <= a < done.len() && #[trigger] edge(succ, done[a], v) && scc@.contains(v) ==> exists|
                        b: int,
                    | 0 <= b < a && #[trigger] done[b] == v,
            decreases n - vseq.len(), stack@.len(),
        {
            proof {
                reveal(scan_row);
                reveal(dfs_cycle);
            }
            let node = stack[stack.len() - 1];
            let ghost stack0 = stack@;
            let ghost top = stack@.len() - 1;
            let ghost vseq0 = vseq;
            let ghost visited_before = visited@;
            let mut found_next = false;
            proof {
                assert(stack@.contains(node)) by { assert(stack@[top] == node); }
                assert(vseq.contains(node));
                assert(visited@.contains(node));
            }
            let row = &self.adj[node];
            let mut j: usize = 0;
            while j < row.len() && !found_next
                invariant
                    forall|k: int| 0 <= k < stack@.len() - 1 ==> #[trigger] edge(succ, stack@[k], stack@[k + 1]),
                    self.wf(),
                    succ == self@.succ,
                    n == succ.len(),
                    start < n,
                    node < n,
                    reaches(succ, start, node),
                    node == start || scc@.contains(node),
                    row@ == succ[node as int],
                    j <= row@.len(),
                    forall|v: usize| #[trigger] scc_set@.contains(v) <==> scc@.contains(v),
                    stack@.no_duplicates(),
                    done.no_duplicates(),
                    forall|a: int, b: int| 0 <= a < stack@.len() && 0 <= b < done.len() ==> stack@[a] != done[b],
                    on_stack@ == stack@.to_set(),
                    vseq.no_duplicates(),
                    visited@ == vseq.to_set(),
                    forall|v: usize| #[trigger] vseq.contains(v) <==> (stack@.contains(v) || done.contains(v)),
                    visited@.contains(start),
                    forall|v: usize| #[trigger] visited@.contains(v) ==> v < n && reaches(succ, start, v) && (v == start || scc@.contains(v)),
                    stack@.len() > 0 ==> stack@[0] == start,
                    stack@.len() >= stack0.len(),
                    stack@.subrange(0, stack0.len() as int) == stack0,
                    stack0.len() >= 1,
                    stack0.last() == node,
                    stack0[0] == start,
                    forall|k: int| 0 < k < stack0.len() ==> scc@.contains(#[trigger] stack0[k]),
                    forall|k: int| 0 < k < stack@.len() ==> scc@.contains(#[trigger] stack@[k]),
                    found_next <==> stack@.len() > stack0.len(),
                    vseq.len() - vseq0.len() == stack@.len() - stack0.len(),
                    !found_next ==> forall|k: int|
                        0 <= k < j && scc@.contains(#[trigger] row@[k]) ==> done.contains(row@[k]),
                    sset == scc@.to_set(),
                    sset.finite(),
                    visited@.finite(),
                    visited_before.finite(),
                    target == cycle_from(succ, sset, true, start),
                    dfs_cycle(succ, sset, true, stack0, visited_before) == target,
                    scan_row(succ[node as int], sset, Some(node), stack@, visited@, j as int, found_next)
                        == scan_row(succ[node as int], sset, Some(node), stack0, visited_before, 0, false),
                    forall|a: int, v: usize|
                        0 <= a < done.len() && #[trigger] edge(succ, done[a], v) && scc@.contains(v) ==> exists|
                            b: int,
                        | 0 <= b < a && #[trigger] done[b] == v,
                decreases row@.len() - j,
            {
                proof {
                    reveal(scan_row);
                    reveal(dfs_cycle);
                }
                let neighbor = row[j];
                proof {
                    assert(succ[node as int][j as int] == neighbor);
                    assert(edge(succ, node, neighbor));
                }
                let ghost scan_now = scan_row(succ[node as int], sset, Some(node), stack@, visited@, j as int, found_next);
                if !scc_set.contains(&neighbor) {
                    proof {
                        assert(!sset.contains(neighbor));
                        assert(scan_now == scan_row(succ[node as int], sset, Some(node), stack@, visited@, j + 1, found_next));
                    }
                    j += 1;
                    continue;
                }
                if neighbor == node {
                    let cycle = vec![self.id_to_label[node].clone(), self.id_to_label[node].clone()];
                    proof {
                        let ids = seq![node, node];
                        assert(ids[0] == node && ids[1] == node);
                        assert(labels_of(self@, ids, cycle@));
                        assert(closed_ids(ids));
                        assert(scan_row(succ[node as int], sset, Some(node), stack@, visited@, j as int, found_next)
                            == ScanOutcome::Closed(ids));
                        assert(stack0.len() > 0 && stack0.last() == node);
                        assert(dfs_cycle(succ, sset, true, stack0, visited_before) == Some(ids));
                    }
                    return Some(cycle);
                }
                let ghost vis_old = visited@;
                let ghost vseq_old = vseq;
                if visited.insert(neighbor) {
                    let ghost s_old = stack@;
                    stack.push(neighbor);
                    on_stack.insert(neighbor);
                    found_next = true;
                    proof {
                        assert(sset.contains(neighbor));
                        assert(!vis_old.contains(neighbor));
                        assert(scan_now == scan_row(succ[node as int], sset, Some(node), s_old.push(neighbor), vis_old.insert(neighbor), j + 1, true));
                        assert(stack@ == s_old.push(neighbor));
                        assert(visited@ == vis_old.insert(neighbor));
                        vseq = vseq.push(neighbor);
                        lemma_reaches_extend(succ, start, node, neighbor);
                        assert(stack@ == s_old.push(neighbor));
                        assert(stack@.subrange(0, stack0.len() as int) =~= s_old.subrange(0, stack0.len() as int));
                        assert(on_stack@ =~= stack@.to_set()) by {
                            assert forall|v: usize| on_stack@.contains(v) <==> stack@.to_set().contains(v) by {
                                if s_old.contains(v) {
                                    let k = choose|k: int| 0 <= k < s_old.len() && s_old[k] == v;
                                    assert(stack@[k] == v);
                                }
                                if stack@.contains(v) && v != neighbor {
                                    let k = choose|k: int| 0 <= k < stack@.len() && stack@[k] == v;
                                    assert(s_old[k] == v);
                                }
                                if v == neighbor {
                                    assert(stack@[s_old.len() as int] == v);
                                }
                            }
                        }
                        assert forall|v: usize| #[trigger] vseq.contains(v) <==> (vseq_old.contains(v) || v == neighbor) by {
                            if vseq.contains(v) && v != neighbor {
                                let k = choose|k: int| 0 <= k < vseq.len() && vseq[k] == v;
                                assert(vseq_old[k] == v);
                            }
                            if vseq_old.contains(v) {
                                let k = choose|k: int| 0 <= k < vseq_old.len() && vseq_old[k] == v;
                                assert(vseq[k] == v);
                            }
                            if v == neighbor {
                                assert(vseq[vseq.len() - 1] == v);
                            }
                        }
                        assert(visited@ =~= vseq.to_set()) by {
                            assert forall|v: usize| visited@.contains(v) <==> vseq.to_set().contains(v) by {
                                assert(vis_old.contains(v) <==> vseq_old.contains(v));
                            }
                        }
                        assert forall|v: usize| #[trigger] s_old.push(neighbor).contains(v) <==> (s_old.contains(v) || v == neighbor) by {
                            let t = s_old.push(neighbor);
                            if t.contains(v) && v != neighbor {
                                let k = choose|k: int| 0 <= k < t.len() && t[k] == v;
                                assert(s_old[k] == v);
                            }
                            if s_old.contains(v) {
                                let k = choose|k: int| 0 <= k < s_old.len() && s_old[k] == v;
                                assert(t[k] == v);
                            }
                            if v == neighbor {
                                assert(t[s_old.len() as int] == v);
                            }
                        }
                        assert forall|v: usize| #[trigger] vseq.contains(v) <==> (stack@.contains(v) || done.contains(v)) by {
                            assert(vseq.contains(v) <==> (vseq_old.contains(v) || v == neighbor));
                            assert(vseq_old.contains(v) <==> (s_old.contains(v) || done.contains(v)));
                            assert(stack@.contains(v) <==> (s_old.contains(v) || v == neighbor));
                        }
                        assert(vseq.no_duplicates()) by {
                            assert(!vseq_old.contains(neighbor));
                            assert forall|x: int, y: int| 0 <= x < vseq.len() && 0 <= y < vseq.len() && x != y implies vseq[x] != vseq[y] by {
                                if x == vseq.len() - 1 {
                                    assert(vseq_old.contains(vseq[y]));
                                } else if y == vseq.len() - 1 {
                                    assert(vseq_old.contains(vseq[x]));
                                }
                            }
                        }
                        assert forall|a: int, b: int| 0 <= a < stack@.len() && 0 <= b < done.len() implies stack@[a] != done[b] by {
                            if a == s_old.len() {
                                if done[b] == neighbor {
                                    assert(done.contains(neighbor));
                                    assert(vseq_old.contains(neighbor));
                                }
                            } else {
                                assert(stack@[a] == s_old[a]);
                            }
                        }
                        assert forall|k: int| 0 < k < stack@.len() implies scc@.contains(#[trigger] stack@[k]) by {
                            if k < s_old.len() {
                                assert(stack@[k] == s_old[k]);
                            }
                        }
                        assert forall|v: usize| #[trigger] visited@.contains(v) implies v < n && reaches(succ, start, v) && (v == start || scc@.contains(v)) by {
                            if v != neighbor {
                                assert(vis_old.contains(v));
                            }
                        }
                        assert(stack@[0] == start);
                    }
                } else if on_stack.contains(&neighbor) {
                    let mut a: usize = stack.len() - 1;
                    while stack[a] != neighbor
                        invariant
                            a < stack@.len(),
                            stack@.contains(neighbor),
                            forall|k: int| a < k < stack@.len() ==> stack@[k] != neighbor,
                        decreases a,
                    {
                        proof {
                            if a == 0 {
                                let k = choose|k: int| 0 <= k < stack@.len() && stack@[k] == neighbor;
                            }
                        }
                        a -= 1;
                    }
                    proof {
                        lemma_index_in(stack@, neighbor, a as int);
                        assert(sset.contains(neighbor));
                        assert(visited@.contains(neighbor));
                        assert(stack@.contains(neighbor));
                        let ids = stack@.subrange(a as int, stack@.len() as int).push(neighbor);
                        assert(scan_row(succ[node as int], sset, Some(node), stack@, visited@, j as int, found_next)
                            == ScanOutcome::Closed(ids));
                        let st = stack@;
                        assert(st =~= stack0);
                        assert(st.last() == node);
                        assert forall|k: int| 0 <= k < ids.len() - 1 implies #[trigger] path_step(
                            succ,
                            ids,
                            k,
                        ) by {
                            if k < ids.len() - 2 {
                                assert(ids[k] == st[a + k] && ids[k + 1] == st[a + k + 1]);
                            } else {
                                assert(ids[k] == st[st.len() - 1]);
                                assert(ids[k + 1] == neighbor);
                            }
                        }
                        assert forall|k: int| 0 <= k < ids.len() implies #[trigger] ids[k] < succ.len() by {
                            if k < ids.len() - 1 {
                                assert(ids[k] == st[a + k]);
                                assert(st.contains(st[a + k]));
                                assert(vseq.contains(st[a + k]));
                                assert(visited@.contains(st[a + k]));
                            } else {
                                assert(edge(succ, node, neighbor));
                            }
                        }
                        assert(is_path(succ, ids));
                        assert(ids.drop_last() =~= st.subrange(a as int, st.len() as int));
                        assert(stack0.len() > 0 && stack0.last() == node);
                        assert(dfs_cycle(succ, sset, true, stack0, visited_before) == Some(ids));
                    }
                    proof {
                        self.lemma_wf_valid();
                        assert forall|k: int| 0 <= k < stack@.len() implies #[trigger] stack@[k] < self@.labels.len() by {
                            assert(stack@.contains(stack@[k]));
                            assert(vseq.contains(stack@[k]));
                            assert(vseq.to_set().contains(stack@[k]));
                        }
                    }
                    let mut cycle: Vec<L> = Vec::new();
                    let mut t: usize = a;
                    while t < stack.len()
                        invariant
                            a <= t <= stack@.len(),
                            stack@[a as int] == neighbor,
                            self.wf(),
                            forall|k: int| 0 <= k < stack@.len() ==> #[trigger] stack@[k] < self@.labels.len(),
                            labels_of(self@, stack@.subrange(a as int, t as int), cycle@),
                        decreases stack@.len() - t,
                    {
                        let ghost c_old = cycle@;
                        cycle.push(self.id_to_label[stack[t]].clone());
                        proof {
                            let ids = stack@.subrange(a as int, t + 1);
                            assert(ids.drop_last() =~= stack@.subrange(a as int, t as int));
                            assert forall|k: int| 0 <= k < ids.len() implies cloned::<L>(self@.labels[ids[k] as int], #[trigger] cycle@[k]) by {
                                if k < ids.len() - 1 {
                                    assert(cycle@[k] == c_old[k]);
                                    assert(ids[k] == stack@.subrange(a as int, t as int)[k]);
                                }
                            }
                        }
                        t += 1;
                    }
                    let ghost c_old = cycle@;
                    cycle.push(self.id_to_label[neighbor].clone());
                    proof {
                        let ids = stack@.subrange(a as int, stack@.len() as int).push(neighbor);
                        assert forall|k: int| 0 <= k < ids.len() implies cloned::<L>(self@.labels[ids[k] as int], #[trigger] cycle@[k]) by {
                            if k < ids.len() - 1 {
                                assert(cycle@[k] == c_old[k]);
                                assert(ids[k] == stack@.subrange(a as int, stack@.len() as int)[k]);
                            }
                        }
                        assert(labels_of(self@, ids, cycle@));
                        assert(closed_ids(ids));
                        assert forall|k: int| 0 <= k < ids.len() implies scc@.contains(#[trigger] ids[k]) && reaches(succ, start, ids[k]) by {
                            if k < ids.len() - 1 {
                                assert(ids[k] == stack@[a + k]);
                                assert(stack@.contains(stack@[a + k]));
                                assert(vseq.contains(ids[k]));
                                assert(vseq.to_set().contains(ids[k]));
                                assert(visited@.contains(ids[k]));
                                if a + k == 0 {
                                    assert(ids[k] == neighbor);
                                } else {
                                    assert(scc@.contains(stack@[a + k]));
                                }
                            } else {
                                assert(visited@.contains(neighbor));
                            }
                        }
                    }
                    return Some(cycle);
                } else {
                    proof {
                        assert(vseq.contains(neighbor));
                        assert(!stack@.contains(neighbor));
                        assert(sset.contains(neighbor));
                        assert(visited@.contains(neighbor));
                        assert(visited@ =~= vis_old);
                        assert(scan_now == scan_row(succ[node as int], sset, Some(node), stack@, visited@, j + 1, found_next));
                    }
                }
                j += 1;
            }
            if !found_next {
                let ghost d_old = done;
                proof {
                    assert(stack@ =~= stack0);
                }
                let ghost os_old = on_stack@;
                stack.pop();
                on_stack.remove(&node);
                proof {
                    done = done.push(node);
                    assert(stack@ == stack0.drop_last());
                    assert forall|v: usize| #[trigger] stack0.contains(v) <==> (stack@.contains(v) || v == node) by {
                        if stack0.contains(v) && v != node {
                            let k = choose|k: int| 0 <= k < stack0.len() && stack0[k] == v;
                            assert(k != stack0.len() - 1);
                            assert(stack@[k] == v);
                        }
                        if stack@.contains(v) {
                            let k = choose|k: int| 0 <= k < stack@.len() && stack@[k] == v;
                            assert(stack0[k] == v);
                        }
                        if v == node {
                            assert(stack0[top] == v);
                        }
                    }
                    assert(!stack@.contains(node)) by {
                        if stack@.contains(node) {
                            let k = choose|k: int| 0 <= k < stack@.len() && stack@[k] == node;
                            assert(stack0[k] == node);
                            assert(stack0[top] == node);
                        }
                    }
                    assert forall|v: usize| #[trigger] done.contains(v) <==> (d_old.contains(v) || v == node) by {
                        if done.contains(v) && v != node {
                            let k = choose|k: int| 0 <= k < done.len() && done[k] == v;
                            assert(d_old[k] == v);
                        }
                        if d_old.contains(v) {
                            let k = choose|k: int| 0 <= k < d_old.len() && d_old[k] == v;
                            assert(done[k] == v);
                        }
                        if v == node {
                            assert(done[d_old.len() as int] == v);
                        }
                    }
                    assert(on_stack@ =~= stack@.to_set()) by {
                        assert forall|v: usize| on_stack@.contains(v) <==> stack@.to_set().contains(v) by {
                            assert(os_old.contains(v) <==> stack0.contains(v));
                        }
                    }
                    assert forall|v: usize| #[trigger] vseq.contains(v) <==> (stack@.contains(v) || done.contains(v)) by {
                        assert(vseq.contains(v) <==> (stack0.contains(v) || d_old.contains(v)));
                    }
                    assert(done.no_duplicates()) by {
                        assert(!d_old.contains(node)) by {
                            if d_old.contains(node) {
                                let k = choose|k: int| 0 <= k < d_old.len() && d_old[k] == node;
                                assert(stack0[top] != d_old[k]);
                            }
                        }
                        assert forall|x: int, y: int| 0 <= x < done.len() && 0 <= y < done.len() && x != y implies done[x] != done[y] by {
                            if x == done.len() - 1 {
                                assert(d_old.contains(done[y]));
                            } else if y == done.len() - 1 {
                                assert(d_old.contains(done[x]));
                            }
                        }
                    }
                    assert forall|a: int, b: int| 0 <= a < stack@.len() && 0 <= b < done.len() implies stack@[a] != done[b] by {
                        assert(stack@[a] == stack0[a]);
                        if b == d_old.len() {
                            assert(stack0[top] == node);
                        }
                    }
                    assert forall|a: int, v: usize|
                        0 <= a < done.len() && #[trigger] edge(succ, done[a], v) && scc@.contains(v) implies exists|
                            b: int,
                        | 0 <= b < a && #[trigger] done[b] == v by {
                        if a == d_old.len() {
                            assert(succ[node as int].contains(v));
                            let k = choose|k: int| 0 <= k < row@.len() && row@[k] == v;
                            assert(d_old.contains(row@[k]));
                            let b = choose|b: int| 0 <= b < d_old.len() && d_old[b] == v;
                            assert(done[b] == v);
                        } else {
                            assert(done[a] == d_old[a]);
                            let b = choose|b: int| 0 <= b < a && #[trigger] d_old[b] == v;
                            assert(done[b] == v);
                        }
                    }
                }
            }
            proof {
                assert forall|k: int| 0 <= k < vseq.len() implies #[trigger] vseq[k] < n by {
                    assert(vseq.contains(vseq[k]));
                    assert(visited@.contains(vseq[k]));
                }
                lemma_distinct_bounded(vseq, n as usize);
            }
        }
        proof {
            if closed_walk_in(succ, start, scc@.to_set()) {
                let p = choose|p: Seq<usize>|
                    #[trigger] is_path(succ, p) && p.len() >= 2 && p[0] == start && p.last() == start && (
                    forall|k: int| 1 <= k < p.len() ==> scc@.to_set().contains(#[trigger] p[k]));
                assert(vseq.contains(start));
                let a0 = choose|a0: int| 0 <= a0 < done.len() && done[a0] == start;
                let b = lemma_pop_order(succ, done, scc@.to_set(), p, a0, p.len() - 1);
                assert(done[b] == start);
            }
        }
        None
    }

    /// Returns the labels of a cycle when the graph has one: the cycle that
    /// the search finds inside its strongly connected component from the
    /// first node of the first component with a cycle in the order of
    /// `kosaraju_scc`, which is the node on a cycle that finishes last in its
    /// first pass.
    pub fn detect_cycle(&self) -> (cycle: Option<Vec<L>>)
        requires
            self.wf(),
        ensures
            cycle is Some <==> has_cycle(self@.succ),
            cycle matches Some(c) ==> exists|ids: Seq<usize>|
                closed_ids(ids) && labels_of(self@, ids, c@) && (forall|k1: int, k2: int|
                    0 <= k1 < ids.len() && 0 <= k2 < ids.len() ==> reaches(
                        self@.succ,
                        #[trigger] ids[k1],
                        #[trigger] ids[k2],
                    )),
            cycle matches Some(c) ==> exists|x: usize, ids: Seq<usize>|
                #![trigger cycle_from(self@.succ, component_of(self@.succ, x), true, x), labels_of(self@, ids, c@)]
                x < self@.succ.len() && on_cycle(self@.succ, x) && last_on_cycle(self@.succ, x)
                    && cycle_from(
                    self@.succ,
                    component_of(self@.succ, x),
                    true,
                    x,
                ) == Some(ids) && labels_of(self@, ids, c@) && is_path(self@.succ, ids)
                    && ids.drop_last().no_duplicates(),
    {
        let ghost succ = self@.succ;
        let sccs = self.kosaraju_scc();
        let ghost cs = seqs_of(sccs@);
        let mut ci: usize = 0;
        while ci < sccs.len()
            invariant
                self.wf(),
                succ == self@.succ,
                cs == seqs_of(sccs@),
                is_scc_decomposition(succ, cs),
                finish_order_of(succ).no_duplicates(),
                forall|v: usize| v < succ.len() ==> #[trigger] finish_order_of(succ).contains(v),
                rooted_by_finish(finish_order_of(succ), cs),
                ci <= sccs@.len(),
                forall|c: int| 0 <= c < ci ==> #[trigger] cs[c].len() == 1 && !edge(succ, cs[c][0], cs[c][0]),
            decreases sccs@.len() - ci,
        {
            let scc = &sccs[ci];
            proof {
                assert(scc@ == cs[ci as int]);
                assert(cs[ci as int].len() > 0);
                self.lemma_wf_valid();
            }
            if scc.len() > 1 {
                let start = scc[0];
                proof {
                    lemma_component_walk(succ, cs, ci as int);
                }
                if let Some(cycle) = self.find_cycle_in_scc(scc.as_slice(), start) {
                    proof {
                        let ids = choose|ids: Seq<usize>|
                            closed_ids(ids) && labels_of(self@, ids, cycle@) && (forall|k: int|
                                0 <= k < ids.len() ==> scc@.contains(#[trigger] ids[k]) && reaches(
                                    succ,
                                    start,
                                    ids[k],
                                ));
                        assert forall|k1: int, k2: int|
                            0 <= k1 < ids.len() && 0 <= k2 < ids.len() implies reaches(
                            succ,
                            #[trigger] ids[k1],
                            #[trigger] ids[k2],
                        ) by {
                            assert(scc@.contains(ids[k1]));
                            assert(scc@.contains(ids[k2]));
                            let t1 = choose|t: int| 0 <= t < scc@.len() && scc@[t] == ids[k1];
                            let t2 = choose|t: int| 0 <= t < scc@.len() && scc@[t] == ids[k2];
                            assert(reaches(succ, cs[ci as int][t1], cs[ci as int][t2]));
                        }
                        let (u, w) = choose|u: usize, w: usize|
                            #[trigger] edge(succ, u, w) && (u == start || scc@.contains(u))
                                && scc@.contains(w);
                        let tw = choose|t: int| 0 <= t < scc@.len() && scc@[t] == w;
                        let tu = if u == start {
                            0
                        } else {
                            choose|t: int| 0 <= t < scc@.len() && scc@[t] == u
                        };
                        assert(scc@[tu] == u);
                        assert(reaches(succ, cs[ci as int][tw], cs[ci as int][tu]));
                        assert(has_cycle(succ));
                        lemma_component_set(succ, cs, ci as int, 0);
                        let ids2 = cycle_from(succ, scc@.to_set(), true, start)->0;
                        let p = choose|p: Seq<usize>|
                            #[trigger] is_path(succ, p) && p.len() >= 2 && p[0] == start && p.last() == start && (
                            forall|k: int| 1 <= k < p.len() ==> cs[ci as int].to_set().contains(#[trigger] p[k]));
                        lemma_path_edge(succ, p, 0);
                        lemma_path_reaches(succ, p, 1, p.len() - 1);
                        assert(edge(succ, start, p[1]) && reaches(succ, p[1], start));
                        assert(on_cycle(succ, start));
                        lemma_first_cyclic_root(succ, cs, ci as int);
                        assert(start < succ.len());
                        assert(cycle_from(succ, component_of(succ, start), true, start) == Some(ids2));
                        assert(is_path(succ, ids2) && ids2.drop_last().no_duplicates());
                    }
                    return Some(cycle);
                }
            } else {
                let node = scc[0];
                if self.has_edge(node, node) {
                    let cycle = vec![self.id_to_label[node].clone(), self.id_to_label[node].clone()];
                    proof {
                        let ids = seq![node, node];
                        assert(ids[0] == node && ids[1] == node);
                        assert(labels_of(self@, ids, cycle@));
                        lemma_reaches_refl(succ, node);
                        assert(edge(succ, node, node));
                        assert(has_cycle(succ));
                        assert forall|k1: int, k2: int|
                            0 <= k1 < ids.len() && 0 <= k2 < ids.len() implies reaches(
                            succ,
                            #[trigger] ids[k1],
                            #[trigger] ids[k2],
                        ) by {}
                        assert(closed_ids(ids));
                        lemma_component_set(succ, cs, ci as int, 0);
                        assert(cs[ci as int].to_set() =~= set![node]);
                        assert(succ[node as int].contains(node));
                        lemma_scan_self_loop(succ[node as int], node, seq![node], set![node], 0, false);
                        reveal(dfs_cycle);
                        assert(cycle_from(succ, component_of(succ, node), true, node) == Some(ids));
                        assert(on_cycle(succ, node));
                        lemma_first_cyclic_root(succ, cs, ci as int);
                        assert(last_on_cycle(succ, node));
                        assert(path_step(succ, ids, 0));
                        assert(is_path(succ, ids));
                        assert(ids.drop_last() =~= seq![node]);
                    }
                    return Some(cycle);
                }
            }
            ci += 1;
        }
        proof {
            if has_cycle(succ) {
                let (u, v) = choose|u: usize, v: usize| #[trigger] edge(succ, u, v) && reaches(succ, v, u);
                assert(in_some_component(cs, u));
                let (c, k) = choose|c: int, k: int|
                    0 <= c < cs.len() && 0 <= k < cs[c].len() && #[trigger] cs[c][k] == u;
                lemma_reaches_edge(succ, u, v);
                assert(reaches(succ, cs[c][k], v));
                assert(cs[c].contains(v));
                assert(cs[c].len() == 1);
            }
        }
        None
    }

    /// The labels of all nodes, every node once: the components of
    /// `kosaraju_scc` from the last to the first, so that a node comes after
    /// the nodes it has edges to, unless they lie on a common cycle; for a
    /// graph without cycles, the order the nodes finish in the first pass of
    /// Kosaraju's algorithm.
    pub fn topological_order(&self) -> (order: Vec<L>)
        requires
            self.wf(),
        ensures
            exists|ids: Seq<usize>|
                labels_of(self@, ids, order@) && ids.no_duplicates() && ids.len()
                    == self@.succ.len() && (forall|v: usize|
                    v < self@.succ.len() ==> #[trigger] ids.contains(v)) && (forall|a: int, b: int|
                    0 <= a < b < ids.len() && #[trigger] edge(self@.succ, ids[a], ids[b])
                        ==> reaches(self@.succ, ids[b], ids[a])) && (forall|a: int, b: int, c: int|
                    0 <= a < b < c < ids.len() && reaches(self@.succ, #[trigger] ids[a], #[trigger] ids[c])
                        && reaches(self@.succ, ids[c], ids[a]) ==> reaches(
                        self@.succ,
                        ids[a],
                        #[trigger] ids[b],
                    ) && reaches(self@.succ, ids[b], ids[a])) && (!has_cycle(self@.succ) ==> ids
                    == finish_order_of(self@.succ)) && ids == concat_from_last(
                    kosaraju_of(self@.succ, self@.pred),
                    0,
                ),
    {
        let ghost succ = self@.succ;
        let ghost n = succ.len();
        let sccs = self.kosaraju_scc();
        let ghost cs = seqs_of(sccs@);
        proof {
            self.lemma_wf_valid();
        }
        let mut result: Vec<L> = Vec::with_capacity(self.node_count());
        let ghost mut ids: Seq<usize> = Seq::empty();
        let ghost mut cof: Seq<int> = Seq::empty();
        let ghost mut slot: Seq<int> = Seq::empty();
        let mut ci = sccs.len();
        while ci > 0
            invariant
                self.wf(),
                succ == self@.succ,
                n == succ.len(),
                self@.labels.len() == n,
                cs == seqs_of(sccs@),
                is_scc_decomposition(succ, cs),
                ci <= cs.len(),
                ids == concat_from_last(cs, ci as int),
                labels_of(self@, ids, result@),
                ids.len() == cof.len(),
                ids.len() == slot.len(),
                forall|p: int|
                    0 <= p < ids.len() ==> ci <= #[trigger] cof[p] < cs.len() && 0 <= slot[p]
                        < cs[cof[p]].len() && cs[cof[p]][slot[p]] == ids[p],
                forall|a: int, b: int| 0 <= a < b < ids.len() ==> #[trigger] cof[a] >= #[trigger] cof[b],
                forall|c: int, k: int|
                    ci <= c < cs.len() && 0 <= k < cs[c].len() ==> ids.contains(#[trigger] cs[c][k]),
                ids.no_duplicates(),
            decreases ci,
        {
            ci -= 1;
            let scc = &sccs[ci];
            proof {
                assert(scc@ == cs[ci as int]);
                assert(cs[ci as int].take(0) =~= Seq::<usize>::empty());
                assert(ids =~= concat_from_last(cs, ci + 1) + cs[ci as int].take(0));
            }
            let mut t: usize = 0;
            while t < scc.len()
                invariant
                    self.wf(),
                    succ == self@.succ,
                    n == succ.len(),
                    self@.labels.len() == n,
                    cs == seqs_of(sccs@),
                    is_scc_decomposition(succ, cs),
                    ci < cs.len(),
                    scc@ == cs[ci as int],
                    t <= scc@.len(),
                    ids == concat_from_last(cs, ci + 1) + cs[ci as int].take(t as int),
                    labels_of(self@, ids, result@),
                    ids.len() == cof.len(),
                    ids.len() == slot.len(),
                    forall|p: int|
                        0 <= p < ids.len() ==> ci <= #[trigger] cof[p] < cs.len() && 0 <= slot[p]
                            < cs[cof[p]].len() && cs[cof[p]][slot[p]] == ids[p],
                    forall|p: int| 0 <= p < ids.len() && #[trigger] cof[p] == ci ==> slot[p] < t,
                    forall|a: int, b: int| 0 <= a < b < ids.len() ==> #[trigger] cof[a] >= #[trigger] cof[b],
                    forall|c: int, k: int|
                        ci < c < cs.len() && 0 <= k < cs[c].len() ==> ids.contains(#[trigger] cs[c][k]),
                    forall|k: int| 0 <= k < t ==> ids.contains(#[trigger] cs[ci as int][k]),
                    ids.no_duplicates(),
                decreases scc@.len() - t,
            {
                let node_id = scc[t];
                proof {
                    assert(node_id < n);
                    assert(cs[ci as int].take(t + 1) =~= cs[ci as int].take(t as int).push(node_id));
                }
                if let Some(label) = self.get_label(node_id) {
                    let ghost r_old = result@;
                    let ghost ids_old = ids;
                    result.push(label.clone());
                    proof {
                        ids = ids.push(node_id);
                        cof = cof.push(ci as int);
                        slot = slot.push(t as int);
                        assert forall|k: int| 0 <= k < ids.len() implies cloned::<L>(self@.labels[ids[k] as int], #[trigger] result@[k]) by {
                            if k < ids_old.len() {
                                assert(result@[k] == r_old[k]);
                                assert(ids[k] == ids_old[k]);
                            }
                        }
                        assert forall|p: int|
                            0 <= p < ids.len() implies ci <= #[trigger] cof[p] < cs.len() && 0 <= slot[p]
                                < cs[cof[p]].len() && cs[cof[p]][slot[p]] == ids[p] by {
                            if p < ids_old.len() {
                                assert(ids[p] == ids_old[p]);
                            }
                        }
                        assert(!ids_old.contains(node_id)) by {
                            if ids_old.contains(node_id) {
                                let p = choose|p: int| 0 <= p < ids_old.len() && ids_old[p] == node_id;
                                assert(cs[cof[p]][slot[p]] == cs[ci as int][t as int]);
                            }
                        }
                        assert forall|c: int, k: int|
                            ci < c < cs.len() && 0 <= k < cs[c].len() implies ids.contains(#[trigger] cs[c][k]) by {
                            assert(ids_old.contains(cs[c][k]));
                            let p = choose|p: int| 0 <= p < ids_old.len() && ids_old[p] == cs[c][k];
                            assert(ids[p] == cs[c][k]);
                        }
                        assert forall|k: int| 0 <= k < t + 1 implies ids.contains(#[trigger] cs[ci as int][k]) by {
                            if k < t {
                                assert(ids_old.contains(cs[ci as int][k]));
                                let p = choose|p: int| 0 <= p < ids_old.len() && ids_old[p] == cs[ci as int][k];
                                assert(ids[p] == cs[ci as int][k]);
                            } else {
                                assert(ids[ids_old.len() as int] == cs[ci as int][k]);
                            }
                        }
                    }
                }
                t += 1;
            }
            proof {
                assert(cs[ci as int].take(scc@.len() as int) =~= cs[ci as int]);
            }
        }
        proof {
            assert(cs == kosaraju_of(succ, self@.pred));
            assert forall|v: usize| v < n implies #[trigger] ids.contains(v) by {
                assert(in_some_component(cs, v));
                let (c, k) = choose|c: int, k: int|
                    0 <= c < cs.len() && 0 <= k < cs[c].len() && #[trigger] cs[c][k] == v;
                assert(ids.contains(cs[c][k]));
            }
            assert forall|a: int, b: int|
                0 <= a < b < ids.len() && #[trigger] edge(succ, ids[a], ids[b]) implies reaches(
                succ,
                ids[b],
                ids[a],
            ) by {
                assert(cof[a] >= cof[b]);
                assert(edge(succ, cs[cof[a]][slot[a]], cs[cof[b]][slot[b]]));
                assert(cof[a] <= cof[b]);
                assert(reaches(succ, cs[cof[b]][slot[b]], cs[cof[a]][slot[a]]));
            }
            assert forall|a: int, b: int, c: int|
                0 <= a < b < c < ids.len() && reaches(succ, #[trigger] ids[a], #[trigger] ids[c])
                    && reaches(succ, ids[c], ids[a]) implies reaches(succ, ids[a], #[trigger] ids[b])
                && reaches(succ, ids[b], ids[a]) by {
                assert(cs[cof[a]][slot[a]] == ids[a]);
                assert(reaches(succ, cs[cof[a]][slot[a]], ids[c]) && reaches(succ, ids[c], cs[cof[a]][slot[a]]));
                assert(cs[cof[a]].contains(ids[c]));
                let k = choose|k: int| 0 <= k < cs[cof[a]].len() && cs[cof[a]][k] == ids[c];
                assert(cs[cof[a]][k] == cs[cof[c]][slot[c]]);
                assert(cof[a] == cof[c]);
                assert(cof[a] >= cof[b] && cof[b] >= cof[c]);
                assert(reaches(succ, cs[cof[a]][slot[a]], cs[cof[a]][slot[b]]));
                assert(reaches(succ, cs[cof[a]][slot[b]], cs[cof[a]][slot[a]]));
            }
            assert forall|k: int| 0 <= k < ids.len() implies #[trigger] ids[k] < n by {}
            <usize as FiniteRange>::range_properties(0, n as usize);
            assert(ids.to_set() =~= Set::range(0usize, n as usize)) by {
                assert forall|v: usize| ids.to_set().contains(v) <==> Set::range(0usize, n as usize).contains(v) by {
                    if ids.contains(v) {
                        let k = choose|k: int| 0 <= k < ids.len() && ids[k] == v;
                    }
                }
            }
            ids.unique_seq_to_set();
            if !has_cycle(succ) {
                let fo = finish_order_of(succ);
                super::laws::law_acyclic_components_are_single(succ, cs);
                assert forall|p: int| 0 <= p < ids.len() implies #[trigger] fo.contains(ids[p]) by {
                    assert(ids[p] < n);
                }
                assert forall|a: int, b: int| 0 <= a < b < ids.len() implies #[trigger] fo.index_of(ids[a])
                    < #[trigger] fo.index_of(ids[b]) by {
                    assert(0 <= cof[a] < cs.len() && 0 <= slot[a] < cs[cof[a]].len());
                    assert(0 <= cof[b] < cs.len() && 0 <= slot[b] < cs[cof[b]].len());
                    assert(cs[cof[a]].len() == 1 && cs[cof[b]].len() == 1);
                    assert(slot[a] == 0 && slot[b] == 0);
                    if cof[a] == cof[b] {
                        assert(ids[a] == ids[b]);
                    }
                    assert(cof[a] > cof[b]);
                    assert(fo.index_of(cs[cof[b]][0]) > fo.index_of(cs[cof[a]][0]));
                }
                assert forall|k: int| 0 <= k < fo.len() implies #[trigger] fo[k] < n by {}
                lemma_distinct_bounded(fo, n as usize);
                lemma_increasing_positions(ids, fo);
            }
        }
        result
    }
}

} // verus!
