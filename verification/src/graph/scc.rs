//! Kosaraju's algorithm: a depth-first pass that records finishing order,
//! then a pass over the reversed edges in decreasing finishing order.
use vstd::prelude::*;

use super::paths::{
    avoids, edge, is_path, lemma_distinct_bounded, lemma_path_concat, lemma_reaches_refl,
    reaches_avoiding,
};
use super::dfs_facts::{
    ancestry, closed_under_succ, finish_rule, gray_rule, lemma_finish_node, lemma_push_node,
};
use super::paths::{lemma_reaches_extend, reaches};
use super::paths::{is_scc_decomposition, seqs_of};
use super::scc_facts::{comp_state, lemma_decomposition, lemma_new_component};
use super::DiGraph;

verus! {

/// A vector of `n` unmarked flags.
pub(crate) fn unmarked(n: usize) -> (v: Vec<bool>)
    ensures
        v@.len() == n,
        forall|i: int| 0 <= i < n ==> !#[trigger] v@[i],
{
    let mut v: Vec<bool> = Vec::with_capacity(n);
    let mut i: usize = 0;
    while i < n
        invariant
            i <= n,
            v@.len() == i,
            forall|j: int| 0 <= j < i ==> !#[trigger] v@[j],
        decreases n - i,
    {
        v.push(false);
        i += 1;
    }
    v
}

/// The nodes of the stack frames.
pub open spec fn stack_nodes(st: Seq<(usize, usize)>) -> Seq<usize> {
    st.map_values(|f: (usize, usize)| f.0)
}

/// The edges that the frames of the stack still have to follow, plus one per frame.
pub open spec fn stack_work(succ: Seq<Seq<usize>>, st: Seq<(usize, usize)>) -> nat
    decreases st.len(),
{
    if st.len() == 0 {
        0
    } else {
        stack_work(succ, st.drop_last()) + ((succ[st.last().0 as int].len() - st.last().1
            + 1) as nat)
    }
}

/// Every successor of every node is a node.
pub open spec fn succ_bounded(succ: Seq<Seq<usize>>) -> bool {
    forall|u: int, k: int| 0 <= u < succ.len() && 0 <= k < succ[u].len() ==> #[trigger] succ[u][k] < succ.len()
}

/// A state of the depth-first search: the finished nodes and the nodes on
/// the stack are distinct nodes, exactly the marked ones, and each frame's
/// next edge is at most one past its node's last.
pub open spec fn fill_ok(succ: Seq<Seq<usize>>, st: Seq<(usize, usize)>, vis: Seq<bool>, fo: Seq<usize>) -> bool {
    &&& succ.len() <= usize::MAX
    &&& succ_bounded(succ)
    &&& forall|u: int| 0 <= u < succ.len() ==> #[trigger] succ[u].len() <= usize::MAX
    &&& vis.len() == succ.len()
    &&& (fo + stack_nodes(st)).no_duplicates()
    &&& forall|k: int| 0 <= k < (fo + stack_nodes(st)).len() ==> #[trigger] (fo + stack_nodes(st))[k] < succ.len()
    &&& forall|v: usize| v < succ.len() ==> (#[trigger] vis[v as int] <==> (fo.contains(v) || stack_nodes(st).contains(v)))
    &&& forall|k: int| 0 <= k < st.len() ==> #[trigger] st[k].1 <= succ[st[k].0 as int].len()
}

/// The rest of the depth-first search from the state `st` (stack of frames:
/// a node and the index of its next edge), `vis` (marks) and `fo` (finished
/// nodes, in order): the marks and the finished nodes it ends with. The top
/// frame follows its next edge to an unmarked node, which is marked and
/// pushed; or skips an edge to a marked node; or, with no edge left, its
/// node finishes.
pub open spec fn fill_run(succ: Seq<Seq<usize>>, st: Seq<(usize, usize)>, vis: Seq<bool>, fo: Seq<usize>) -> (
    Seq<bool>,
    Seq<usize>,
)
    decreases succ.len() - fo.len() - st.len(), stack_work(succ, st),
    when fill_ok(succ, st, vis, fo)
{
    if st.len() == 0 {
        (vis, fo)
    } else {
        let node = st.last().0;
        let idx = st.last().1;
        if idx < succ[node as int].len() {
            let next = succ[node as int][idx as int];
            let st1 = st.drop_last().push((node, (idx + 1) as usize));
            proof {
                lemma_fill_measure(succ, st, vis, fo);
            }
            if !vis[next as int] {
                fill_run(succ, st1.push((next, 0usize)), vis.update(next as int, true), fo)
            } else {
                fill_run(succ, st1, vis, fo)
            }
        } else {
            proof {
                lemma_fill_measure(succ, st, vis, fo);
            }
            fill_run(succ, st.drop_last(), vis, fo.push(node))
        }
    }
}

/// The first pass of Kosaraju's algorithm from node `s` on: each node in
/// turn that is still unmarked starts a search. Its result is the order in
/// which the nodes finish.
pub open spec fn fill_from(succ: Seq<Seq<usize>>, s: int, vis: Seq<bool>, fo: Seq<usize>) -> Seq<usize>
    decreases succ.len() - s,
{
    if s >= succ.len() || s < 0 {
        fo
    } else if vis[s] {
        fill_from(succ, s + 1, vis, fo)
    } else {
        let r = fill_run(succ, seq![(s as usize, 0usize)], vis.update(s, true), fo);
        fill_from(succ, s + 1, r.0, r.1)
    }
}

/// The order in which the nodes finish in the first pass of Kosaraju's
/// algorithm: a depth-first search from each unmarked node in turn, each
/// node's edges followed in the order they were added.
pub open spec fn finish_order_of(succ: Seq<Seq<usize>>) -> Seq<usize> {
    fill_from(succ, 0, Seq::new(succ.len(), |i: int| false), Seq::empty())
}

/// Each component starts with the one of its nodes that finishes last in
/// `fo`, and the components come in decreasing order of that node's finish.
pub open spec fn rooted_by_finish(fo: Seq<usize>, cs: Seq<Seq<usize>>) -> bool {
    &&& forall|c: int, k: int|
        0 <= c < cs.len() && 0 <= k < cs[c].len() ==> fo.index_of(#[trigger] cs[c][k]) <= fo.index_of(
            cs[c][0],
        )
    &&& forall|c1: int, c2: int|
        0 <= c1 < c2 < cs.len() ==> fo.index_of(#[trigger] cs[c1][0]) > fo.index_of(
            #[trigger] cs[c2][0],
        )
}

/// The position of `s[k]` in `s`, which holds it once.
pub proof fn lemma_position_of(s: Seq<usize>, k: int)
    requires
        s.no_duplicates(),
        0 <= k < s.len(),
    ensures
        s.index_of(s[k]) == k,
{
    assert(s.contains(s[k]));
    let i = s.index_of(s[k]);
    assert(0 <= i < s.len() && s[i] == s[k]);
}

/// The nodes of `row` that `vis` leaves unmarked pushed onto `st` in turn,
/// each marked as it is pushed: the marks and the stack that result.
pub open spec fn push_unmarked(row: Seq<usize>, vis: Seq<bool>, st: Seq<usize>) -> (Seq<bool>, Seq<usize>)
    decreases row.len(),
{
    if row.len() == 0 {
        (vis, st)
    } else {
        let r = push_unmarked(row.drop_last(), vis, st);
        let x = row.last();
        if !r.0[x as int] {
            (r.0.update(x as int, true), r.1.push(x))
        } else {
            r
        }
    }
}

/// The component so far and the stack hold distinct nodes.
pub open spec fn rev_ok(n: nat, st: Seq<usize>, comp: Seq<usize>) -> bool {
    &&& n <= usize::MAX
    &&& (comp + st).no_duplicates()
    &&& forall|k: int| 0 <= k < (comp + st).len() ==> #[trigger] (comp + st)[k] < n
}

/// The rest of the second pass of Kosaraju's algorithm from the stack `st`,
/// the marks `vis` and the component so far `comp`: it pops a node, appends
/// it to the component and pushes its unmarked predecessors in order. The
/// marks and the component it ends with.
pub open spec fn rev_run(pred: Seq<Seq<usize>>, st: Seq<usize>, vis: Seq<bool>, comp: Seq<usize>) -> (
    Seq<bool>,
    Seq<usize>,
)
    decreases pred.len() - comp.len(),
    when rev_ok(pred.len(), st, comp)
{
    if st.len() == 0 {
        (vis, comp)
    } else {
        let node = st.last();
        proof {
            let cs = comp + st;
            lemma_distinct_bounded(cs, pred.len() as usize);
        }
        let r = push_unmarked(pred[node as int], vis, st.drop_last());
        rev_run(pred, r.1, r.0, comp.push(node))
    }
}

/// The components of the second pass of Kosaraju's algorithm from position
/// `i` of the finish order `fo` downwards: each node still unmarked starts a
/// new component.
pub open spec fn comps_from(
    pred: Seq<Seq<usize>>,
    fo: Seq<usize>,
    i: int,
    vis: Seq<bool>,
    cs: Seq<Seq<usize>>,
) -> Seq<Seq<usize>>
    decreases i,
{
    if i <= 0 {
        cs
    } else if vis[fo[i - 1] as int] {
        comps_from(pred, fo, i - 1, vis, cs)
    } else {
        let r = rev_run(pred, seq![fo[i - 1]], vis.update(fo[i - 1] as int, true), Seq::empty());
        comps_from(pred, fo, i - 1, r.0, cs.push(r.1))
    }
}

/// The strongly connected components in the order and with the members in
/// the order that Kosaraju's algorithm gives for the successor lists `succ`
/// and the predecessor lists `pred`.
pub open spec fn kosaraju_of(succ: Seq<Seq<usize>>, pred: Seq<Seq<usize>>) -> Seq<Seq<usize>> {
    comps_from(
        pred,
        finish_order_of(succ),
        finish_order_of(succ).len() as int,
        Seq::new(succ.len(), |i: int| false),
        Seq::empty(),
    )
}

/// The measure of the search goes down at each step: finished and stacked
/// nodes are distinct nodes, an unmarked successor is neither, and the work
/// left on the stack falls when a frame moves on or goes.
pub proof fn lemma_fill_measure(succ: Seq<Seq<usize>>, st: Seq<(usize, usize)>, vis: Seq<bool>, fo: Seq<usize>)
    requires
        fill_ok(succ, st, vis, fo),
        st.len() > 0,
    ensures
        fo.len() + st.len() <= succ.len(),
        st.last().1 < succ[st.last().0 as int].len() ==> stack_work(
            succ,
            st.drop_last().push((st.last().0, (st.last().1 + 1) as usize)),
        ) < stack_work(succ, st),
        st.last().1 < succ[st.last().0 as int].len() && !vis[succ[st.last().0 as int][st.last().1 as int] as int]
            ==> fo.len() + st.len() + 1 <= succ.len(),
        stack_work(succ, st.drop_last()) < stack_work(succ, st),
{
    let n = succ.len();
    let fs = fo + stack_nodes(st);
    assert(fs.len() == fo.len() + st.len());
    lemma_distinct_bounded(fs, n as usize);
    let node = st.last().0;
    let idx = st.last().1;
    assert(st.last() == st[st.len() - 1]);
    assert(node == fs[fs.len() - 1]);
    let st1 = st.drop_last().push((node, (idx + 1) as usize));
    assert(st1.drop_last() =~= st.drop_last());
    assert(node < n) by {
        assert(fs[fs.len() - 1] < n);
    }
    if idx < succ[node as int].len() {
        assert(idx + 1 <= usize::MAX);
        assert(st1.last() == (node, (idx + 1) as usize));
    }
    if idx < succ[node as int].len() && !vis[succ[node as int][idx as int] as int] {
        let next = succ[node as int][idx as int];
        assert(next < n);
        let fs2 = fs.push(next);
        assert(!fo.contains(next) && !stack_nodes(st).contains(next));
        assert forall|a: int, b: int| 0 <= a < fs2.len() && 0 <= b < fs2.len() && a != b implies fs2[a]
            != fs2[b] by {
            if a < fs.len() && b < fs.len() {
                assert(fs2[a] == fs[a] && fs2[b] == fs[b]);
            } else if a < fs.len() {
                if a < fo.len() {
                    assert(fo.contains(fs[a]));
                } else {
                    assert(stack_nodes(st)[a - fo.len()] == fs[a]);
                    assert(stack_nodes(st).contains(fs[a]));
                }
            } else if b < fs.len() {
                if b < fo.len() {
                    assert(fo.contains(fs[b]));
                } else {
                    assert(stack_nodes(st)[b - fo.len()] == fs[b]);
                    assert(stack_nodes(st).contains(fs[b]));
                }
            }
        }
        assert forall|k: int| 0 <= k < fs2.len() implies #[trigger] fs2[k] < n by {
            if k < fs.len() {
                assert(fs2[k] == fs[k]);
            }
        }
        lemma_distinct_bounded(fs2, n as usize);
    }
}

/// The facts that the search keeps make a consistent state.
proof fn lemma_fill_ok_from(succ: Seq<Seq<usize>>, st: Seq<(usize, usize)>, vis: Seq<bool>, fo: Seq<usize>)
    requires
        succ.len() <= usize::MAX,
        succ_bounded(succ),
        forall|u: int| 0 <= u < succ.len() ==> #[trigger] succ[u].len() <= usize::MAX,
        vis.len() == succ.len(),
        fo.no_duplicates(),
        stack_nodes(st).no_duplicates(),
        forall|k: int| 0 <= k < fo.len() ==> #[trigger] fo[k] < succ.len(),
        forall|k: int| 0 <= k < st.len() ==> #[trigger] st[k].0 < succ.len(),
        forall|a: int, b: int| 0 <= a < fo.len() && 0 <= b < st.len() ==> fo[a] != st[b].0,
        forall|v: usize| v < succ.len() ==> (#[trigger] vis[v as int] <==> (fo.contains(v) || stack_nodes(st).contains(v))),
        forall|k: int| 0 <= k < st.len() ==> #[trigger] st[k].1 <= succ[st[k].0 as int].len(),
    ensures
        fill_ok(succ, st, vis, fo),
{
    let sn = stack_nodes(st);
    let fs = fo + sn;
    assert forall|a: int, b: int| 0 <= a < fs.len() && 0 <= b < fs.len() && a != b implies fs[a] != fs[b] by {
        if a >= fo.len() {
            assert(fs[a] == st[a - fo.len()].0);
        }
        if b >= fo.len() {
            assert(fs[b] == st[b - fo.len()].0);
        }
    }
    assert forall|k: int| 0 <= k < fs.len() implies #[trigger] fs[k] < succ.len() by {
        if k >= fo.len() {
            assert(fs[k] == st[k - fo.len()].0);
        }
    }
}

/// Between searches: the marked nodes are exactly the finished ones, finished
/// nodes only lead to finished nodes, and the finish rule holds.
pub open spec fn fill_state(succ: Seq<Seq<usize>>, vis: Seq<bool>, fo: Seq<usize>) -> bool {
    &&& vis.len() == succ.len()
    &&& fo.no_duplicates()
    &&& forall|k: int| 0 <= k < fo.len() ==> #[trigger] fo[k] < succ.len()
    &&& forall|v: usize| v < succ.len() ==> (#[trigger] vis[v as int] <==> fo.contains(v))
    &&& closed_under_succ(succ, fo)
    &&& finish_rule(succ, fo)
}

impl<L: Clone> DiGraph<L> {
    /// Depth-first search from `start`, appending nodes to `finish_order` as
    /// they finish.
    fn dfs_fill_order(&self, start: usize, visited: &mut Vec<bool>, finish_order: &mut Vec<usize>)
        requires
            self.wf(),
            start < self@.succ.len(),
            !old(visited)@[start as int],
            fill_state(self@.succ, old(visited)@, old(finish_order)@),
        ensures
            fill_state(self@.succ, final(visited)@, final(finish_order)@),
            (final(visited)@, final(finish_order)@) == fill_run(
                self@.succ,
                seq![(start, 0usize)],
                old(visited)@.update(start as int, true),
                old(finish_order)@,
            ),
            final(visited)@[start as int],
            forall|v: int|
                0 <= v < self@.succ.len() && old(visited)@[v] ==> #[trigger] final(visited)@[v],
    {
        let ghost succ = self@.succ;
        let ghost n = succ.len();
        let ghost fo0 = finish_order@;
        let ghost vis0 = visited@;
        let ghost mut anc: Map<usize, Set<usize>> = Map::empty().insert(start, set![start]);
        let mut stack: Vec<(usize, usize)> = Vec::new();
        stack.push((start, 0));
        visited.set(start, true);
        proof {
            lemma_reaches_refl(succ, start);
            let sn = stack_nodes(stack@);
            assert(sn =~= seq![start]);
            assert(sn.take(1) =~= seq![start]);
            assert forall|x: usize| sn.take(1).to_set().contains(x) <==> set![start].contains(x) by {
                if x == start {
                    assert(sn.take(1)[0] == start);
                }
            }
            assert(sn.take(1).to_set() =~= set![start]);
            assert forall|p: Seq<usize>| #[trigger]
                super::dfs_facts::gray_path(succ, finish_order@, sn, p) && !fo0.contains(p[0])
                implies anc.contains_key(p[0]) && anc[p[0]].contains(p.last()) by {
                assert(p.drop_last()[0] == p[0]);
            }
            assert forall|v: usize| v < n implies (#[trigger] visited@[v as int] <==> (
            finish_order@.contains(v) || sn.contains(v))) by {
                if v == start {
                    assert(sn[0] == v);
                }
            }
            assert(gray_rule(succ, finish_order@, fo0, sn, anc));
            assert(stack_work(succ, stack@.drop_last()) == 0);
            assert(stack@ =~= seq![(start, 0usize)]);
            assert(visited@ =~= vis0.update(start as int, true));
            self.lemma_rows_fit();
            self.lemma_wf_valid();
        }
        let ghost target = fill_run(succ, stack@, visited@, finish_order@);
        while stack.len() > 0
            invariant
                fill_run(succ, stack@, visited@, finish_order@) == target,
                succ.len() <= usize::MAX,
                succ_bounded(succ),
                forall|u: int| 0 <= u < succ.len() ==> #[trigger] succ[u].len() <= usize::MAX,
                self.wf(),
                succ == self@.succ,
                n == succ.len(),
                start < n,
                visited@.len() == n,
                visited@[start as int],
                forall|v: int| 0 <= v < n && vis0[v] ==> #[trigger] visited@[v],
                finish_order@.no_duplicates(),
                forall|k: int| 0 <= k < finish_order@.len() ==> #[trigger] finish_order@[k] < n,
                forall|x: usize| fo0.contains(x) ==> finish_order@.contains(x),
                closed_under_succ(succ, fo0),
                stack_nodes(stack@).no_duplicates(),
                forall|k: int| 0 <= k < stack@.len() ==> #[trigger] stack@[k].0 < n,
                forall|a: int, b: int|
                    0 <= a < finish_order@.len() && 0 <= b < stack@.len() ==> finish_order@[a]
                        != stack@[b].0,
                forall|v: usize|
                    v < n ==> (#[trigger] visited@[v as int] <==> (finish_order@.contains(v)
                        || stack_nodes(stack@).contains(v))),
                forall|k: int|
                    0 <= k < stack@.len() ==> #[trigger] stack@[k].1 <= succ[stack@[k].0 as int].len(),
                forall|k: int|
                    0 <= k < stack@.len() - 1 ==> #[trigger] stack@[k].1 >= 1 && succ[stack@[k].0 as int][stack@[k].1
                        - 1] == stack@[k + 1].0,
                forall|k: int, j: int|
                    0 <= k < stack@.len() && 0 <= j < stack@[k].1 ==> visited@[#[trigger] succ[stack@[k].0 as int][j] as int],
                forall|k: int|
                    0 <= k < stack@.len() ==> anc.contains_key(#[trigger] stack_nodes(stack@)[k])
                        && anc[stack_nodes(stack@)[k]] == stack_nodes(stack@).take(k + 1).to_set(),
                forall|a: int, b: int|
                    0 <= a <= b < stack@.len() ==> reaches(succ, #[trigger] stack@[a].0, #[trigger] stack@[b].0),
                ancestry(succ, anc),
                forall|v: usize| #[trigger] anc.contains_key(v) ==> v < n && visited@[v as int],
                forall|v: usize|
                    finish_order@.contains(v) && !fo0.contains(v) ==> #[trigger] anc.contains_key(v),
                forall|b: usize, v: usize|
                    finish_order@.contains(b) && !fo0.contains(b) && #[trigger] edge(succ, b, v)
                        ==> finish_order@.contains(v) || (stack_nodes(stack@).contains(v) && reaches(
                        succ,
                        v,
                        b,
                    )),
                gray_rule(succ, finish_order@, fo0, stack_nodes(stack@), anc),
                finish_rule(succ, finish_order@),
            decreases n - finish_order@.len() - stack@.len(), stack_work(succ, stack@),
        {
            let ghost st = stack@;
            let ghost sn = stack_nodes(st);
            let ghost fo = finish_order@;
            let ghost vis = visited@;
            proof {
                lemma_fill_ok_from(succ, st, vis, fo);
            }
            let (node, idx) = stack.pop().unwrap();
            proof {
                assert(stack@ == st.drop_last());
                assert(st.last() == (node, idx));
                assert(sn.last() == node);
                assert(sn[sn.len() - 1] == node);
            }
            if idx < self.adj[node].len() {
                let next = self.adj[node][idx];
                stack.push((node, idx + 1));
                proof {
                    assert(succ[node as int][idx as int] == next);
                    assert(edge(succ, node, next));
                    assert(stack@ == st.drop_last().push((node, (idx + 1) as usize)));
                    assert(stack_nodes(stack@) =~= sn);
                    assert(stack@.drop_last() =~= st.drop_last());
                }
                if !visited[next] {
                    let ghost st1 = stack@;
                    visited.set(next, true);
                    stack.push((next, 0));
                    proof {
                        assert(!fo.contains(next));
                        assert(!sn.contains(next));
                        assert(!anc.contains_key(next));
                        let sn2 = sn.push(next);
                        assert(stack@ == st1.push((next, 0usize)));
                        assert(stack_nodes(stack@) =~= sn2);
                        lemma_push_node(succ, fo, fo0, sn, anc, next, sn2.to_set());
                        let anc_old = anc;
                        anc = anc.insert(next, sn2.to_set());
                        assert forall|k: int|
                            0 <= k < stack@.len() implies anc.contains_key(
                            #[trigger] stack_nodes(stack@)[k],
                        ) && anc[stack_nodes(stack@)[k]] == stack_nodes(stack@).take(k + 1).to_set() by {
                            if k < sn.len() {
                                assert(sn2[k] == sn[k]);
                                assert(sn[k] != next);
                                assert(sn2.take(k + 1) =~= sn.take(k + 1));
                            } else {
                                assert(sn2.take(k + 1) =~= sn2);
                            }
                        }
                        assert forall|a: int, b: int|
                            0 <= a <= b < stack@.len() implies reaches(
                            succ,
                            #[trigger] stack@[a].0,
                            #[trigger] stack@[b].0,
                        ) by {
                            if b < stack@.len() - 1 {
                                assert(stack@[a] == st1[a]);
                                assert(stack@[b] == st1[b]);
                                assert(st1[a].0 == st[a].0);
                                assert(st1[b].0 == st[b].0);
                            } else if a == b {
                                lemma_reaches_refl(succ, next);
                            } else {
                                assert(stack@[a].0 == st[a].0);
                                assert(st[st.len() - 1].0 == node);
                                assert(reaches(succ, st[a].0, st[st.len() - 1].0));
                                lemma_reaches_extend(succ, st[a].0, node, next);
                            }
                        }
                        assert forall|x: usize, y: usize|
                            anc.contains_key(x) && #[trigger] anc[x].contains(y) implies reaches(
                            succ,
                            y,
                            x,
                        ) && anc.contains_key(y) && anc[y].subset_of(anc[x]) by {
                            if x == next {
                                assert(sn2.to_set().contains(y));
                                let k = choose|k: int| 0 <= k < sn2.len() && sn2[k] == y;
                                assert(stack@[k].0 == y);
                                assert(stack@[sn2.len() - 1].0 == next);
                                assert(reaches(succ, stack@[k].0, stack@[sn2.len() - 1].0));
                                assert(anc[stack_nodes(stack@)[k]] == stack_nodes(stack@).take(k + 1).to_set());
                                assert(stack_nodes(stack@)[k] == y);
                                assert(sn2.take(k + 1).to_set().subset_of(sn2.to_set()));
                            } else {
                                assert(anc_old[x].contains(y));
                                assert(anc_old.contains_key(y));
                            }
                        }
                        assert forall|v: usize| v < n implies (#[trigger] visited@[v as int] <==> (
                        finish_order@.contains(v) || stack_nodes(stack@).contains(v))) by {
                            if sn.contains(v) {
                                let k = choose|k: int| 0 <= k < sn.len() && sn[k] == v;
                                assert(sn2[k] == v);
                            }
                            if sn2.contains(v) && v != next {
                                let k = choose|k: int| 0 <= k < sn2.len() && sn2[k] == v;
                                assert(sn[k] == v);
                            }
                            if v == next {
                                assert(sn2[sn.len() as int] == v);
                            }
                        }
                        assert forall|b: usize, v: usize|
                            finish_order@.contains(b) && !fo0.contains(b) && #[trigger] edge(
                                succ,
                                b,
                                v,
                            ) implies finish_order@.contains(v) || (stack_nodes(stack@).contains(v)
                            && reaches(succ, v, b)) by {
                            if sn.contains(v) && !finish_order@.contains(v) {
                                let k = choose|k: int| 0 <= k < sn.len() && sn[k] == v;
                                assert(sn2[k] == v);
                            }
                        }
                        let fs = finish_order@ + stack_nodes(stack@);
                        assert forall|x: int, y: int|
                            0 <= x < fs.len() && 0 <= y < fs.len() && x != y implies fs[x] != fs[y] by {
                            if x < fo.len() && y >= fo.len() {
                                assert(fs[y] == stack@[y - fo.len()].0);
                            } else if x >= fo.len() && y < fo.len() {
                                assert(fs[x] == stack@[x - fo.len()].0);
                            } else if x >= fo.len() && y >= fo.len() {
                                assert(fs[x] == sn2[x - fo.len()]);
                                assert(fs[y] == sn2[y - fo.len()]);
                            }
                        }
                        assert forall|k: int| 0 <= k < fs.len() implies #[trigger] fs[k] < n by {
                            if k >= fo.len() {
                                assert(fs[k] == stack@[k - fo.len()].0);
                            }
                        }
                        lemma_distinct_bounded(fs, n as usize);
                        assert forall|a: int, b: int|
                            0 <= a < finish_order@.len() && 0 <= b < stack@.len() implies finish_order@[a]
                                != stack@[b].0 by {
                            if b == stack@.len() - 1 {
                                assert(stack@[b].0 == next);
                                if finish_order@[a] == next {
                                    assert(fo.contains(next));
                                }
                            } else {
                                assert(stack@[b].0 == st[b].0);
                            }
                        }
                        assert forall|k: int, j: int|
                            0 <= k < st.len() && 0 <= j < stack@[k].1 implies visited@[#[trigger] succ[stack@[k].0 as int][j] as int] by {
                            if k < st.len() - 1 {
                                assert(stack@[k] == st[k]);
                                assert(visited@[succ[st[k].0 as int][j] as int]);
                            } else if j < idx {
                                assert(st[k] == (node, idx));
                                assert(visited@[succ[st[k].0 as int][j] as int]);
                            }
                        }
                    }
                } else {
                    proof {
                        assert(stack_work(succ, stack@) + 1 == stack_work(succ, st));
                        assert forall|k: int, j: int|
                            0 <= k < st.len() && 0 <= j < stack@[k].1 implies visited@[#[trigger] succ[stack@[k].0 as int][j] as int] by {
                            if k < st.len() - 1 {
                                assert(stack@[k] == st[k]);
                                assert(visited@[succ[st[k].0 as int][j] as int]);
                            } else if j < idx {
                                assert(st[k] == (node, idx));
                                assert(visited@[succ[st[k].0 as int][j] as int]);
                            }
                        }
                    }
                }
            } else {
                finish_order.push(node);
                proof {
                    assert(idx == succ[node as int].len());
                    lemma_finish_node(succ, fo, fo0, sn, anc);
                    let sn2 = sn.drop_last();
                    assert(stack_nodes(stack@) =~= sn2);
                    assert(finish_order@ == fo.push(node));
                    assert forall|k: int|
                        0 <= k < stack@.len() implies anc.contains_key(
                        #[trigger] stack_nodes(stack@)[k],
                    ) && anc[stack_nodes(stack@)[k]] == stack_nodes(stack@).take(k + 1).to_set() by {
                        assert(sn2[k] == sn[k]);
                        assert(sn2.take(k + 1) =~= sn.take(k + 1));
                    }
                    assert forall|v: usize| v < n implies (#[trigger] visited@[v as int] <==> (
                    finish_order@.contains(v) || stack_nodes(stack@).contains(v))) by {
                        if fo.contains(v) {
                            let k = choose|k: int| 0 <= k < fo.len() && fo[k] == v;
                            assert(finish_order@[k] == v);
                        }
                        if finish_order@.contains(v) && v != node {
                            let k = choose|k: int| 0 <= k < finish_order@.len() && finish_order@[k] == v;
                            assert(fo[k] == v);
                        }
                        if v == node {
                            assert(finish_order@[fo.len() as int] == v);
                        }
                        if sn.contains(v) && v != node {
                            let k = choose|k: int| 0 <= k < sn.len() && sn[k] == v;
                            assert(k != sn.len() - 1);
                            assert(sn2[k] == v);
                        }
                        if sn2.contains(v) {
                            let k = choose|k: int| 0 <= k < sn2.len() && sn2[k] == v;
                            assert(sn[k] == v);
                        }
                    }
                    assert forall|b: usize, v: usize|
                        finish_order@.contains(b) && !fo0.contains(b) && #[trigger] edge(succ, b, v)
                            implies finish_order@.contains(v) || (stack_nodes(stack@).contains(v)
                        && reaches(succ, v, b)) by {
                        if b == node {
                            let j = choose|j: int| 0 <= j < succ[node as int].len() && succ[node as int][j] == v;
                            assert(st[st.len() - 1] == (node, idx));
                            assert(visited@[succ[st[st.len() - 1].0 as int][j] as int]);
                            if fo.contains(v) {
                                let k = choose|k: int| 0 <= k < fo.len() && fo[k] == v;
                                assert(finish_order@[k] == v);
                            } else if v == node {
                                assert(finish_order@[fo.len() as int] == v);
                            } else {
                                assert(sn.contains(v));
                                let k = choose|k: int| 0 <= k < sn.len() && sn[k] == v;
                                assert(k != sn.len() - 1);
                                assert(sn2[k] == v);
                                assert(st[k].0 == v);
                                assert(reaches(succ, st[k].0, st[st.len() - 1].0));
                            }
                        } else {
                            assert(fo.contains(b)) by {
                                let k = choose|k: int| 0 <= k < finish_order@.len() && finish_order@[k] == b;
                                assert(k < fo.len());
                                assert(fo[k] == b);
                            }
                            if fo.contains(v) {
                                let k = choose|k: int| 0 <= k < fo.len() && fo[k] == v;
                                assert(finish_order@[k] == v);
                            } else if v == node {
                                assert(finish_order@[fo.len() as int] == v);
                            } else {
                                let k = choose|k: int| 0 <= k < sn.len() && sn[k] == v;
                                assert(k != sn.len() - 1);
                                assert(sn2[k] == v);
                            }
                        }
                    }
                    assert(stack_work(succ, st) == stack_work(succ, stack@) + 1);
                    assert forall|a: int, b: int|
                        0 <= a < finish_order@.len() && 0 <= b < stack@.len() implies finish_order@[a]
                            != stack@[b].0 by {
                        assert(stack@[b].0 == sn[b]);
                        if a == fo.len() {
                            assert(sn[sn.len() - 1] == node);
                        } else {
                            assert(st[b].0 == sn[b]);
                        }
                    }
                    assert forall|x: usize| fo0.contains(x) implies finish_order@.contains(x) by {
                        assert(fo.contains(x));
                        let k = choose|k: int| 0 <= k < fo.len() && fo[k] == x;
                        assert(finish_order@[k] == x);
                    }
                }
            }
        }
        proof {
            assert(stack_nodes(stack@) =~= Seq::<usize>::empty());
            assert forall|a: usize, b: usize|
                #[trigger] edge(succ, a, b) && finish_order@.contains(a) implies finish_order@.contains(b) by {
                if fo0.contains(a) {
                    assert(fo0.contains(b));
                }
            }
        }
    }

    /// The strongly connected components, found by Kosaraju's algorithm
    /// (`kosaraju_of`): a component never has an edge into an earlier one,
    /// and each starts with the one of its nodes that finishes last in the
    /// first pass.
    pub fn kosaraju_scc(&self) -> (sccs: Vec<Vec<usize>>)
        requires
            self.wf(),
        ensures
            is_scc_decomposition(self@.succ, seqs_of(sccs@)),
            finish_order_of(self@.succ).no_duplicates(),
            forall|v: usize| v < self@.succ.len() ==> #[trigger] finish_order_of(self@.succ).contains(v),
            forall|k: int|
                0 <= k < finish_order_of(self@.succ).len() ==> #[trigger] finish_order_of(self@.succ)[k]
                    < self@.succ.len(),
            rooted_by_finish(finish_order_of(self@.succ), seqs_of(sccs@)),
            seqs_of(sccs@) == kosaraju_of(self@.succ, self@.pred),
    {
        let ghost succ = self@.succ;
        let n = self.node_count();
        if n == 0 {
            let sccs: Vec<Vec<usize>> = Vec::new();
            proof {
                assert(seqs_of(sccs@) =~= Seq::<Seq<usize>>::empty());
                assert(finish_order_of(succ) == Seq::<usize>::empty());
            }
            return sccs;
        }
        let mut finish_order: Vec<usize> = Vec::with_capacity(n);
        let mut visited = unmarked(n);
        proof {
            assert forall|v: usize| v < n implies (#[trigger] visited@[v as int] <==> finish_order@.contains(v)) by {}
            assert forall|a: usize, b: usize| #[trigger] edge(succ, a, b) && finish_order@.contains(a) implies finish_order@.contains(b) by {}
            assert forall|i: int, p: Seq<usize>| #[trigger] super::dfs_facts::finish_bounded(succ, finish_order@, i, p) implies super::paths::reaches(succ, finish_order@[i], p[0]) by {}
        }
        proof {
            assert(visited@ =~= Seq::new(succ.len(), |i: int| false));
        }
        for start in 0..n
            invariant
                self.wf(),
                succ == self@.succ,
                n == succ.len(),
                fill_state(succ, visited@, finish_order@),
                forall|v: int| 0 <= v < start ==> #[trigger] visited@[v],
                fill_from(succ, start as int, visited@, finish_order@) == finish_order_of(succ),
        {
            if !visited[start] {
                self.dfs_fill_order(start, &mut visited, &mut finish_order);
            }
        }
        let ghost fo = finish_order@;
        proof {
            assert forall|v: usize| v < n implies #[trigger] fo.contains(v) by {
                assert(visited@[v as int]);
            }
            assert(fo == finish_order_of(succ));
        }
        let ghost mut roots: Seq<int> = Seq::empty();
        let ghost pred = self@.pred;
        let mut sccs: Vec<Vec<usize>> = Vec::new();
        let mut visited = unmarked(n);
        let mut i = finish_order.len();
        proof {
            assert(seqs_of(sccs@) =~= Seq::<Seq<usize>>::empty());
            assert(visited@ =~= Seq::new(succ.len(), |i: int| false));
        }
        while i > 0
            invariant
                self.wf(),
                succ == self@.succ,
                n == succ.len(),
                fo == finish_order@,
                fo.no_duplicates(),
                forall|k: int| 0 <= k < fo.len() ==> #[trigger] fo[k] < n,
                forall|v: usize| v < n ==> #[trigger] fo.contains(v),
                super::dfs_facts::finish_rule(succ, fo),
                i <= fo.len(),
                visited@.len() == n,
                comp_state(succ, visited@, seqs_of(sccs@)),
                forall|k: int| i <= k < fo.len() ==> visited@[#[trigger] fo[k] as int],
                pred == self@.pred,
                comps_from(pred, fo, i as int, visited@, seqs_of(sccs@)) == kosaraju_of(succ, pred),
                roots.len() == sccs@.len(),
                forall|c: int|
                    0 <= c < roots.len() ==> i <= #[trigger] roots[c] < fo.len() && fo[roots[c]]
                        == seqs_of(sccs@)[c][0],
                forall|c1: int, c2: int|
                    0 <= c1 < c2 < roots.len() ==> #[trigger] roots[c1] > #[trigger] roots[c2],
                forall|c: int, k: int|
                    0 <= c < roots.len() && 0 <= k < seqs_of(sccs@)[c].len() ==> fo.index_of(
                        #[trigger] seqs_of(sccs@)[c][k],
                    ) <= roots[c],
            decreases i,
        {
            i -= 1;
            let node = finish_order[i];
            if !visited[node] {
                let ghost v0 = visited@;
                let mut component = Vec::new();
                self.dfs_rev(node, &mut visited, &mut component);
                let ghost cs = seqs_of(sccs@);
                proof {
                    lemma_new_component(succ, fo, i as int, v0, visited@, cs, component@);
                }
                sccs.push(component);
                proof {
                    assert(seqs_of(sccs@) =~= cs.push(component@));
                    let cs2 = seqs_of(sccs@);
                    let r0 = roots;
                    roots = roots.push(i as int);
                    assert forall|k: int| 0 <= k < component@.len() implies fo.index_of(
                        #[trigger] component@[k],
                    ) <= i by {
                        let x = component@[k];
                        assert(fo.contains(x));
                        let p = fo.index_of(x);
                        assert(0 <= p < fo.len() && fo[p] == x);
                        assert(!v0[x as int]);
                        if p > i {
                            assert(v0[fo[p] as int]);
                        }
                    }
                    assert forall|c: int, k: int|
                        0 <= c < roots.len() && 0 <= k < cs2[c].len() implies fo.index_of(
                        #[trigger] cs2[c][k],
                    ) <= roots[c] by {
                        if c < cs.len() {
                            assert(cs2[c] == cs[c]);
                            assert(roots[c] == r0[c]);
                        } else {
                            assert(cs2[c] == component@);
                        }
                    }
                    assert forall|c: int|
                        0 <= c < roots.len() implies i <= #[trigger] roots[c] < fo.len() && fo[roots[c]]
                        == cs2[c][0] by {
                        if c < cs.len() {
                            assert(cs2[c] == cs[c]);
                            assert(roots[c] == r0[c]);
                        } else {
                            assert(cs2[c] == component@);
                        }
                    }
                }
            }
        }
        proof {
            assert forall|v: int| 0 <= v < n implies #[trigger] visited@[v] by {
                assert(fo.contains(v as usize));
                let k = choose|k: int| 0 <= k < fo.len() && fo[k] == v as usize;
                assert(visited@[fo[k] as int]);
            }
            lemma_decomposition(succ, visited@, seqs_of(sccs@));
            let cs = seqs_of(sccs@);
            assert forall|c: int, k: int|
                0 <= c < cs.len() && 0 <= k < cs[c].len() implies fo.index_of(#[trigger] cs[c][k])
                <= fo.index_of(cs[c][0]) by {
                lemma_position_of(fo, roots[c]);
            }
            assert forall|c1: int, c2: int|
                0 <= c1 < c2 < cs.len() implies fo.index_of(#[trigger] cs[c1][0]) > fo.index_of(
                #[trigger] cs[c2][0],
            ) by {
                lemma_position_of(fo, roots[c1]);
                lemma_position_of(fo, roots[c2]);
                assert(roots[c1] > roots[c2]);
            }
        }
        sccs
    }

    /// Collects into `component` every unmarked node from which `start` can be
    /// reached through unmarked nodes, marking them; `start` comes first.
    fn dfs_rev(&self, start: usize, visited: &mut Vec<bool>, component: &mut Vec<usize>)
        requires
            self.wf(),
            old(visited)@.len() == self@.succ.len(),
            start < self@.succ.len(),
            !old(visited)@[start as int],
            old(component)@.len() == 0,
        ensures
            final(visited)@.len() == old(visited)@.len(),
            (final(visited)@, final(component)@) == rev_run(
                self@.pred,
                seq![start],
                old(visited)@.update(start as int, true),
                Seq::<usize>::empty(),
            ),
            final(component)@.len() >= 1,
            final(component)@[0] == start,
            final(component)@.no_duplicates(),
            forall|k: int| 0 <= k < final(component)@.len() ==> #[trigger] final(component)@[k] < self@.succ.len(),
            forall|k: int| 0 <= k < final(component)@.len() ==> !old(visited)@[#[trigger] final(component)@[k] as int],
            forall|v: usize|
                v < self@.succ.len() ==> (#[trigger] final(visited)@[v as int] <==> (old(
                    visited,
                )@[v as int] || final(component)@.contains(v))),
            forall|k: int|
                0 <= k < final(component)@.len() ==> reaches_avoiding(
                    self@.succ,
                    old(visited)@,
                    #[trigger] final(component)@[k],
                    start,
                ),
            forall|k: int, u: usize|
                0 <= k < final(component)@.len() && #[trigger] edge(self@.succ, u, final(component)@[k])
                    ==> final(visited)@[u as int],
    {
        let ghost succ = self@.succ;
        let ghost n = succ.len();
        let ghost v0 = visited@;
        let mut stack: Vec<usize> = Vec::new();
        stack.push(start);
        visited.set(start, true);
        proof {
            let p = seq![start];
            assert(is_path(succ, p));
            assert(avoids(p, v0));
            assert(stack@ == seq![start]);
            assert forall|v: usize| v < n implies (#[trigger] visited@[v as int] <==> (v0[v as int]
                || component@.contains(v) || stack@.contains(v))) by {
                if v == start {
                    assert(stack@[0] == v);
                }
            }
            assert(visited@ =~= v0.update(start as int, true));
            assert(component@ =~= Seq::<usize>::empty());
            assert(self@.pred.len() == n);
            self.lemma_rows_fit();
        }
        let ghost pred = self@.pred;
        let ghost target = rev_run(pred, stack@, visited@, component@);
        while stack.len() > 0
            invariant
                pred == self@.pred,
                pred.len() == n,
                n <= usize::MAX,
                rev_run(pred, stack@, visited@, component@) == target,
                self.wf(),
                succ == self@.succ,
                n == succ.len(),
                start < n,
                !v0[start as int],
                visited@.len() == n,
                v0.len() == n,
                stack@.no_duplicates(),
                component@.no_duplicates(),
                forall|a: int, b: int|
                    0 <= a < stack@.len() && 0 <= b < component@.len() ==> stack@[a]
                        != component@[b],
                forall|k: int| 0 <= k < stack@.len() ==> #[trigger] stack@[k] < n,
                forall|k: int| 0 <= k < component@.len() ==> #[trigger] component@[k] < n,
                forall|k: int| 0 <= k < stack@.len() ==> !v0[#[trigger] stack@[k] as int],
                forall|k: int| 0 <= k < component@.len() ==> !v0[#[trigger] component@[k] as int],
                forall|v: usize|
                    v < n ==> (#[trigger] visited@[v as int] <==> (v0[v as int]
                        || component@.contains(v) || stack@.contains(v))),
                forall|k: int|
                    0 <= k < stack@.len() ==> reaches_avoiding(
                        succ,
                        v0,
                        #[trigger] stack@[k],
                        start,
                    ),
                forall|k: int|
                    0 <= k < component@.len() ==> reaches_avoiding(
                        succ,
                        v0,
                        #[trigger] component@[k],
                        start,
                    ),
                forall|k: int, u: usize|
                    0 <= k < component@.len() && #[trigger] edge(succ, u, component@[k])
                        ==> visited@[u as int],
                component@.len() == 0 ==> stack@ == seq![start],
                component@.len() > 0 ==> component@[0] == start,
            decreases n - component@.len() - stack@.len(), stack@.len(),
        {
            proof {
                let cs = component@ + stack@;
                assert forall|a: int, b: int|
                    0 <= a < cs.len() && 0 <= b < cs.len() && a != b implies cs[a] != cs[b] by {
                    if a < component@.len() && b >= component@.len() {
                        assert(cs[b] == stack@[b - component@.len()]);
                    } else if a >= component@.len() && b < component@.len() {
                        assert(cs[a] == stack@[a - component@.len()]);
                    }
                }
                assert forall|k: int| 0 <= k < cs.len() implies #[trigger] cs[k] < n by {
                    if k >= component@.len() {
                        assert(cs[k] == stack@[k - component@.len()]);
                    }
                }
                lemma_distinct_bounded(cs, n as usize);
                assert(rev_ok(pred.len(), stack@, component@));
            }
            let ghost s_pre = stack@;
            let ghost vis_mid = visited@;
            let node = stack.pop().unwrap();
            let ghost c_old = component@;
            proof {
                assert(stack@ == s_pre.drop_last());
                assert(node == s_pre.last());
            }
            component.push(node);
            proof {
                assert(component@ == c_old.push(node));
                assert forall|v: usize| v < n implies (#[trigger] visited@[v as int] <==> (v0[v as int]
                    || component@.contains(v) || stack@.contains(v))) by {
                    if component@.contains(v) && !c_old.contains(v) {
                        let k = choose|k: int| 0 <= k < component@.len() && component@[k] == v;
                        if k < c_old.len() {
                            assert(c_old[k] == v);
                        }
                    }
                    if c_old.contains(v) {
                        let k = choose|k: int| 0 <= k < c_old.len() && c_old[k] == v;
                        assert(component@[k] == v);
                    }
                    if s_pre.contains(v) {
                        let k = choose|k: int| 0 <= k < s_pre.len() && s_pre[k] == v;
                        if k < s_pre.len() - 1 {
                            assert(stack@[k] == v);
                        } else {
                            assert(component@[c_old.len() as int] == v);
                        }
                    }
                    if stack@.contains(v) {
                        let k = choose|k: int| 0 <= k < stack@.len() && stack@[k] == v;
                        assert(s_pre[k] == v);
                    }
                    if v == node {
                        assert(component@[c_old.len() as int] == v);
                    }
                }
                assert forall|a: int, b: int|
                    0 <= a < stack@.len() && 0 <= b < component@.len() implies stack@[a]
                        != component@[b] by {
                    assert(stack@[a] == s_pre[a]);
                    if b == c_old.len() {
                        assert(component@[b] == s_pre[s_pre.len() - 1]);
                    } else {
                        assert(component@[b] == c_old[b]);
                    }
                }
            }
            let ghost stack_mid = stack@;
            let row = &self.rev_adj[node as usize];
            let mut j: usize = 0;
            proof {
                assert(row@.take(0) =~= Seq::<usize>::empty());
                assert(pred[node as int] == row@);
            }
            while j < row.len()
                invariant
                    pred == self@.pred,
                    pred.len() == n,
                    rev_run(pred, s_pre, vis_mid, c_old) == target,
                    rev_ok(pred.len(), s_pre, c_old),
                    s_pre.len() > 0,
                    s_pre.last() == node,
                    s_pre.drop_last() == stack_mid,
                    pred[node as int] == row@,
                    (visited@, stack@) == push_unmarked(row@.take(j as int), vis_mid, stack_mid),
                    self.wf(),
                    succ == self@.succ,
                    n == succ.len(),
                    node < n,
                    row@ == self.rev_adj@[node as int]@,
                    j <= row@.len(),
                    start < n,
                    !v0[start as int],
                    visited@.len() == n,
                    v0.len() == n,
                    stack@.no_duplicates(),
                    component@.no_duplicates(),
                    component@.len() > 0,
                    component@.last() == node,
                    component@[0] == start,
                    forall|a: int, b: int|
                        0 <= a < stack@.len() && 0 <= b < component@.len() ==> stack@[a]
                            != component@[b],
                    forall|k: int| 0 <= k < stack@.len() ==> #[trigger] stack@[k] < n,
                    forall|k: int| 0 <= k < component@.len() ==> #[trigger] component@[k] < n,
                    forall|k: int| 0 <= k < stack@.len() ==> !v0[#[trigger] stack@[k] as int],
                    forall|k: int|
                        0 <= k < component@.len() ==> !v0[#[trigger] component@[k] as int],
                    forall|v: usize|
                        v < n ==> (#[trigger] visited@[v as int] <==> (v0[v as int]
                            || component@.contains(v) || stack@.contains(v))),
                    forall|k: int|
                        0 <= k < stack@.len() ==> reaches_avoiding(
                            succ,
                            v0,
                            #[trigger] stack@[k],
                            start,
                        ),
                    forall|k: int|
                        0 <= k < component@.len() ==> reaches_avoiding(
                            succ,
                            v0,
                            #[trigger] component@[k],
                            start,
                        ),
                    forall|k: int, u: usize|
                        0 <= k < component@.len() - 1 && #[trigger] edge(succ, u, component@[k])
                            ==> visited@[u as int],
                    forall|k: int| 0 <= k < j ==> visited@[#[trigger] row@[k] as int],
                    stack_mid.len() <= stack@.len(),
                    stack_mid.len() + 1 == s_pre.len(),
                    component@ == c_old.push(node),
                    stack@.subrange(0, stack_mid.len() as int) == stack_mid,
                decreases row@.len() - j,
            {
                let next = row[j];
                proof {
                    assert(row@.take(j + 1).drop_last() =~= row@.take(j as int));
                    assert(row@.take(j + 1).last() == next);
                }
                if !visited[next] {
                    proof {
                        assert(self.rev_adj@[node as int]@.contains(next));
                        assert(edge(succ, next, node));
                        let k = component@.len() - 1;
                        assert(reaches_avoiding(succ, v0, component@[k], start));
                        let p = choose|p: Seq<usize>|
                            #[trigger] is_path(succ, p) && p[0] == node && p.last() == start
                                && avoids(p, v0);
                        let q = seq![next, node];
                        assert(super::paths::path_step(succ, q, 0));
                        assert(is_path(succ, q));
                        lemma_path_concat(succ, q, p);
                        let r = q + p.drop_first();
                        assert(avoids(r, v0)) by {
                            assert forall|i: int| 0 <= i < r.len() implies !v0[#[trigger] r[i] as int] by {
                                if i == 0 {
                                    assert(!visited@[next as int]);
                                } else {
                                    assert(r[i] == p[i - 1]);
                                }
                            }
                        }
                        assert(is_path(succ, r) && r[0] == next && r.last() == start);
                    }
                    visited.set(next, true);
                    let ghost s_old = stack@;
                    stack.push(next);
                    proof {
                        assert(stack@ == s_old.push(next));
                        assert forall|k: int|
                            0 <= k < stack@.len() implies reaches_avoiding(
                            succ,
                            v0,
                            #[trigger] stack@[k],
                            start,
                        ) by {
                            if k < s_old.len() {
                                assert(stack@[k] == s_old[k]);
                            }
                        }
                        assert forall|v: usize| v < n implies (#[trigger] visited@[v as int] <==> (
                        v0[v as int] || component@.contains(v) || stack@.contains(v))) by {
                            if s_old.contains(v) {
                                let k = choose|k: int| 0 <= k < s_old.len() && s_old[k] == v;
                                assert(stack@[k] == v);
                            }
                            if stack@.contains(v) && v != next {
                                let k = choose|k: int| 0 <= k < stack@.len() && stack@[k] == v;
                                assert(s_old[k] == v);
                            }
                            if v == next {
                                assert(stack@[s_old.len() as int] == v);
                            }
                        }
                        assert(stack@.subrange(0, stack_mid.len() as int) =~= stack_mid);
                    }
                }
                j += 1;
            }
            proof {
                assert(row@.take(row@.len() as int) =~= row@);
                let cs = component@ + stack@;
                assert forall|a: int, b: int|
                    0 <= a < cs.len() && 0 <= b < cs.len() && a != b implies cs[a] != cs[b] by {
                    if a < component@.len() && b >= component@.len() {
                        assert(cs[b] == stack@[b - component@.len()]);
                    } else if a >= component@.len() && b < component@.len() {
                        assert(cs[a] == stack@[a - component@.len()]);
                    }
                }
                assert forall|k: int| 0 <= k < cs.len() implies #[trigger] cs[k] < n by {
                    if k >= component@.len() {
                        assert(cs[k] == stack@[k - component@.len()]);
                    }
                }
                lemma_distinct_bounded(cs, n as usize);
                assert forall|k: int, u: usize|
                    0 <= k < component@.len() && #[trigger] edge(succ, u, component@[k])
                        implies visited@[u as int] by {
                    if k == component@.len() - 1 {
                        assert(self.adj@[u as int]@.contains(node));
                        assert(row@.contains(u));
                        let i = choose|i: int| 0 <= i < row@.len() && row@[i] == u;
                        assert(visited@[row@[i] as int]);
                    }
                }
            }
        }
    }
}

} // verus!
