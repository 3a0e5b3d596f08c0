//! Facts about the finishing order of a depth-first search.
//!
//! While the search runs, `fo` lists the finished nodes in finishing order and
//! `sn` the nodes on the stack, deepest last; `anc[x]` is the set of nodes that
//! were on the stack when `x` was discovered (with `x` itself).
use vstd::prelude::*;

use super::paths::{
    edge, is_path, lemma_path_edge, lemma_path_stays_closed, lemma_path_subrange,
    lemma_reaches_refl, reaches, within,
};

verus! {

/// `p` ends at the node finished `i`-th and visits only nodes finished no later.
pub open spec fn finish_bounded(succ: Seq<Seq<usize>>, fo: Seq<usize>, i: int, p: Seq<usize>) -> bool {
    &&& 0 <= i < fo.len()
    &&& is_path(succ, p)
    &&& p.last() == fo[i]
    &&& within(p, fo.take(i + 1))
}

/// A node reaches every node that reaches it along a walk of nodes finished
/// no later than itself.
pub open spec fn finish_rule(succ: Seq<Seq<usize>>, fo: Seq<usize>) -> bool {
    forall|i: int, p: Seq<usize>| #[trigger]
        finish_bounded(succ, fo, i, p) ==> reaches(succ, fo[i], p[0])
}

/// A walk through finished nodes that ends on the stack.
pub open spec fn gray_path(succ: Seq<Seq<usize>>, fo: Seq<usize>, sn: Seq<usize>, p: Seq<usize>) -> bool {
    &&& is_path(succ, p)
    &&& p.len() >= 2
    &&& within(p.drop_last(), fo)
    &&& sn.contains(p.last())
}

/// Every walk from a node finished during this search through finished nodes
/// to a node on the stack ends at a node that was on the stack when the first
/// node was discovered.
pub open spec fn gray_rule(
    succ: Seq<Seq<usize>>,
    fo: Seq<usize>,
    fo0: Seq<usize>,
    sn: Seq<usize>,
    anc: Map<usize, Set<usize>>,
) -> bool {
    forall|p: Seq<usize>| #[trigger]
        gray_path(succ, fo, sn, p) && !fo0.contains(p[0]) ==> anc.contains_key(p[0])
            && anc[p[0]].contains(p.last())
}

/// The ancestor sets are reachable from their nodes and nested.
pub open spec fn ancestry(succ: Seq<Seq<usize>>, anc: Map<usize, Set<usize>>) -> bool {
    forall|x: usize, y: usize|
        anc.contains_key(x) && #[trigger] anc[x].contains(y) ==> reaches(succ, y, x) && anc.contains_key(y)
            && anc[y].subset_of(anc[x])
}

/// Successors of `fo0` stay in `fo0`.
pub open spec fn closed_under_succ(succ: Seq<Seq<usize>>, s: Seq<usize>) -> bool {
    forall|a: usize, b: usize| #[trigger] edge(succ, a, b) && s.contains(a) ==> s.contains(b)
}

pub proof fn lemma_first_index(p: Seq<usize>, x: usize) -> (m: int)
    requires
        p.contains(x),
    ensures
        0 <= m < p.len(),
        p[m] == x,
        forall|j: int| 0 <= j < m ==> p[j] != x,
    decreases p.len(),
{
    if p[0] == x {
        0
    } else {
        let q = p.drop_first();
        let k = choose|k: int| 0 <= k < p.len() && p[k] == x;
        assert(q[k - 1] == x);
        let m = lemma_first_index(q, x);
        assert forall|j: int| 0 <= j < m + 1 implies p[j] != x by {
            if j > 0 {
                assert(p[j] == q[j - 1]);
            }
        }
        m + 1
    }
}

/// Finishing the deepest stack node `u` keeps the finish rule and the gray rule.
pub proof fn lemma_finish_node(
    succ: Seq<Seq<usize>>,
    fo: Seq<usize>,
    fo0: Seq<usize>,
    sn: Seq<usize>,
    anc: Map<usize, Set<usize>>,
)
    requires
        sn.len() >= 1,
        sn.no_duplicates(),
        forall|a: int, b: int| 0 <= a < fo.len() && 0 <= b < sn.len() ==> fo[a] != sn[b],
        forall|x: usize| fo0.contains(x) ==> fo.contains(x),
        closed_under_succ(succ, fo0),
        forall|k: int|
            0 <= k < sn.len() ==> anc.contains_key(#[trigger] sn[k]) && anc[sn[k]] == sn.take(
                k + 1,
            ).to_set(),
        ancestry(succ, anc),
        gray_rule(succ, fo, fo0, sn, anc),
        finish_rule(succ, fo),
    ensures
        finish_rule(succ, fo.push(sn.last())),
        gray_rule(succ, fo.push(sn.last()), fo0, sn.drop_last(), anc),
{
    let u = sn.last();
    let fo2 = fo.push(u);
    let sn2 = sn.drop_last();
    assert(anc[sn[sn.len() - 1]] == sn.take(sn.len() as int).to_set());
    assert(sn.take(sn.len() as int) =~= sn);
    assert forall|i: int, p: Seq<usize>| #[trigger]
        finish_bounded(succ, fo2, i, p) implies reaches(succ, fo2[i], p[0]) by {
        if i < fo.len() {
            assert(fo2.take(i + 1) =~= fo.take(i + 1));
            assert(finish_bounded(succ, fo, i, p));
        } else {
            assert(p.last() == u);
            assert(p.contains(u)) by {
                assert(p[p.len() - 1] == u);
            }
            let m = lemma_first_index(p, u);
            if m == 0 {
                lemma_reaches_refl(succ, u);
            } else {
                let q = p.subrange(0, m + 1);
                lemma_path_subrange(succ, p, 0, m + 1);
                assert forall|k: int| 0 <= k < q.drop_last().len() implies fo.contains(
                    #[trigger] q.drop_last()[k],
                ) by {
                    assert(q.drop_last()[k] == p[k]);
                    assert(fo2.take(i + 1) =~= fo2);
                    assert(fo2.contains(p[k]));
                    let j = choose|j: int| 0 <= j < fo2.len() && fo2[j] == p[k];
                    assert(p[k] != u);
                    assert(j < fo.len());
                    assert(fo[j] == p[k]);
                }
                assert(sn.contains(q.last())) by {
                    assert(sn[sn.len() - 1] == u);
                }
                assert(gray_path(succ, fo, sn, q));
                if fo0.contains(q[0]) {
                    lemma_path_stays_closed(succ, q, fo0, q.len() - 1);
                    assert(fo.contains(u));
                    let j = choose|j: int| 0 <= j < fo.len() && fo[j] == u;
                    assert(fo[j] != sn[sn.len() - 1]);
                } else {
                    assert(anc[q[0]].contains(u));
                }
            }
        }
    }
    assert forall|p: Seq<usize>| #[trigger]
        gray_path(succ, fo2, sn2, p) && !fo0.contains(p[0]) implies anc.contains_key(p[0])
            && anc[p[0]].contains(p.last()) by {
        let g = p.last();
        let k = choose|k: int| 0 <= k < sn2.len() && sn2[k] == g;
        assert(sn[k] == g);
        assert(sn.contains(g));
        let d = p.drop_last();
        if d.contains(u) {
            let m = lemma_first_index(d, u);
            assert(p[m] == u);
            assert(anc[u].contains(g)) by {
                assert(sn.to_set().contains(g));
            }
            if m == 0 {
            } else {
                let q = p.subrange(0, m + 1);
                lemma_path_subrange(succ, p, 0, m + 1);
                assert forall|j: int| 0 <= j < q.drop_last().len() implies fo.contains(
                    #[trigger] q.drop_last()[j],
                ) by {
                    assert(q.drop_last()[j] == d[j]);
                    assert(fo2.contains(d[j]));
                    let t = choose|t: int| 0 <= t < fo2.len() && fo2[t] == d[j];
                    assert(t < fo.len());
                    assert(fo[t] == d[j]);
                }
                assert(sn.contains(q.last())) by {
                    assert(sn[sn.len() - 1] == u);
                }
                assert(gray_path(succ, fo, sn, q));
                assert(anc[p[0]].contains(u));
                assert(anc[u].subset_of(anc[p[0]]));
            }
        } else {
            assert forall|j: int| 0 <= j < d.len() implies fo.contains(#[trigger] d[j]) by {
                assert(fo2.contains(d[j]));
                let t = choose|t: int| 0 <= t < fo2.len() && fo2[t] == d[j];
                if t == fo.len() {
                    assert(d[j] == u);
                    assert(d.contains(u));
                }
                assert(fo[t] == d[j]);
            }
            assert(gray_path(succ, fo, sn, p));
        }
    }
}

/// Pushing an undiscovered node `w` keeps the gray rule.
pub proof fn lemma_push_node(
    succ: Seq<Seq<usize>>,
    fo: Seq<usize>,
    fo0: Seq<usize>,
    sn: Seq<usize>,
    anc: Map<usize, Set<usize>>,
    w: usize,
    aw: Set<usize>,
)
    requires
        !fo.contains(w),
        !sn.contains(w),
        !anc.contains_key(w),
        forall|x: usize| fo0.contains(x) ==> fo.contains(x),
        closed_under_succ(succ, fo0),
        forall|b: usize, v: usize|
            fo.contains(b) && !fo0.contains(b) && #[trigger] edge(succ, b, v) ==> fo.contains(v)
                || sn.contains(v),
        gray_rule(succ, fo, fo0, sn, anc),
    ensures
        gray_rule(succ, fo, fo0, sn.push(w), anc.insert(w, aw)),
{
    let sn2 = sn.push(w);
    let anc2 = anc.insert(w, aw);
    assert forall|p: Seq<usize>| #[trigger]
        gray_path(succ, fo, sn2, p) && !fo0.contains(p[0]) implies anc2.contains_key(p[0])
            && anc2[p[0]].contains(p.last()) by {
        let d = p.drop_last();
        assert(fo.contains(d[0]));
        assert(p[0] == d[0]);
        if p.last() == w {
            let b = p[p.len() - 2];
            lemma_path_edge(succ, p, p.len() - 2);
            assert(fo.contains(d[p.len() - 2]));
            assert(d[p.len() - 2] == b);
            if fo0.contains(b) {
                assert(fo0.contains(w));
            } else {
                assert(fo.contains(w) || sn.contains(w));
            }
        } else {
            let k = choose|k: int| 0 <= k < sn2.len() && sn2[k] == p.last();
            assert(k < sn.len());
            assert(sn[k] == p.last());
            assert(gray_path(succ, fo, sn, p));
            assert(p[0] != w);
        }
    }
}

} // verus!
