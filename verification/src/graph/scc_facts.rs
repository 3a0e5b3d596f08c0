//! Facts about the second pass of Kosaraju's algorithm.
use vstd::prelude::*;

use super::dfs_facts::{finish_bounded, finish_rule};
use super::paths::{
    avoids, edge, in_some_component, is_path, is_scc_decomposition, lemma_path_back_closed,
    lemma_reaches_trans, reaches, reaches_avoiding,
};

verus! {

/// The components found so far partition the marked nodes, the marked nodes
/// are closed under predecessors, each component is the set of nodes that
/// reach its first node both ways, and edges into a component come from it
/// or from an earlier one.
pub open spec fn comp_state(succ: Seq<Seq<usize>>, vis: Seq<bool>, cs: Seq<Seq<usize>>) -> bool {
    &&& vis.len() == succ.len()
    &&& forall|c: int| 0 <= c < cs.len() ==> #[trigger] cs[c].len() > 0
    &&& forall|c: int, k: int|
        0 <= c < cs.len() && 0 <= k < cs[c].len() ==> #[trigger] cs[c][k] < succ.len()
    &&& forall|c1: int, k1: int, c2: int, k2: int|
        0 <= c1 < cs.len() && 0 <= k1 < cs[c1].len() && 0 <= c2 < cs.len() && 0 <= k2
            < cs[c2].len() && #[trigger] cs[c1][k1] == #[trigger] cs[c2][k2] ==> c1 == c2 && k1
            == k2
    &&& forall|v: usize| v < succ.len() && #[trigger] vis[v as int] ==> in_some_component(cs, v)
    &&& forall|c: int, k: int|
        0 <= c < cs.len() && 0 <= k < cs[c].len() ==> vis[#[trigger] cs[c][k] as int]
    &&& forall|u: usize, v: usize| #[trigger] edge(succ, u, v) && vis[v as int] ==> vis[u as int]
    &&& forall|c: int, k: int|
        0 <= c < cs.len() && 0 <= k < cs[c].len() ==> reaches(succ, #[trigger] cs[c][k], cs[c][0])
            && reaches(succ, cs[c][0], cs[c][k])
    &&& forall|c: int, y: usize|
        0 <= c < cs.len() && y < succ.len() && #[trigger] reaches(succ, y, cs[c][0]) && reaches(
            succ,
            cs[c][0],
            y,
        ) ==> cs[c].contains(y)
    &&& forall|c: int, k: int, u: usize|
        0 <= c < cs.len() && 0 <= k < cs[c].len() && #[trigger] edge(succ, u, cs[c][k])
            ==> in_some_component(cs.take(c + 1), u)
}

/// Adding the component found from the unmarked node finished `i`-th, when
/// every node finished later is marked, keeps the component state.
#[verifier::rlimit(40)]
pub proof fn lemma_new_component(
    succ: Seq<Seq<usize>>,
    fo: Seq<usize>,
    i: int,
    v0: Seq<bool>,
    v1: Seq<bool>,
    cs: Seq<Seq<usize>>,
    c: Seq<usize>,
)
    requires
        fo.no_duplicates(),
        forall|k: int| 0 <= k < fo.len() ==> #[trigger] fo[k] < succ.len(),
        forall|v: usize| v < succ.len() ==> #[trigger] fo.contains(v),
        finish_rule(succ, fo),
        0 <= i < fo.len(),
        !v0[fo[i] as int],
        forall|k: int| i < k < fo.len() ==> v0[#[trigger] fo[k] as int],
        comp_state(succ, v0, cs),
        v1.len() == v0.len(),
        c.len() >= 1,
        c[0] == fo[i],
        c.no_duplicates(),
        forall|k: int| 0 <= k < c.len() ==> #[trigger] c[k] < succ.len(),
        forall|k: int| 0 <= k < c.len() ==> !v0[#[trigger] c[k] as int],
        forall|v: usize|
            v < succ.len() ==> (#[trigger] v1[v as int] <==> (v0[v as int] || c.contains(v))),
        forall|k: int|
            0 <= k < c.len() ==> reaches_avoiding(succ, v0, #[trigger] c[k], fo[i]),
        forall|k: int, u: usize| 0 <= k < c.len() && #[trigger] edge(succ, u, c[k]) ==> v1[u as int],
    ensures
        comp_state(succ, v1, cs.push(c)),
        forall|k: int| i <= k < fo.len() ==> v1[#[trigger] fo[k] as int],
{
    let n = succ.len();
    let r = fo[i];
    let cs2 = cs.push(c);
    assert(cs2.len() == cs.len() + 1);
    assert(cs2[cs.len() as int] == c);
    assert forall|c0: int| 0 <= c0 < cs.len() implies #[trigger] cs2[c0] == cs[c0] by {}
    // old marks stay
    assert forall|v: usize| v < n && v0[v as int] implies v1[v as int] by {
        assert(v1[v as int]);
    }
    // predecessor closure of the new marks
    assert forall|u: usize, v: usize| #[trigger] edge(succ, u, v) && v1[v as int] implies v1[u as int] by {
        if v0[v as int] {
            assert(v0[u as int]);
            assert(v1[u as int]);
        } else {
            assert(c.contains(v));
            let k = choose|k: int| 0 <= k < c.len() && c[k] == v;
            assert(edge(succ, u, c[k]));
        }
    }
    // the members of the new component and its first node reach each other
    assert forall|k: int| 0 <= k < c.len() implies reaches(succ, #[trigger] c[k], c[0]) && reaches(
        succ,
        c[0],
        c[k],
    ) by {
        assert(reaches_avoiding(succ, v0, c[k], r));
        let p = choose|p: Seq<usize>|
            #[trigger] is_path(succ, p) && p[0] == c[k] && p.last() == r && avoids(p, v0);
        assert(reaches(succ, c[k], c[0]));
        assert forall|j: int| 0 <= j < p.len() implies fo.take(i + 1).contains(#[trigger] p[j]) by {
            assert(p[j] < n);
            assert(fo.contains(p[j]));
            let t = choose|t: int| 0 <= t < fo.len() && fo[t] == p[j];
            assert(!v0[p[j] as int]);
            if t > i {
                assert(v0[fo[t] as int]);
            }
            assert(fo.take(i + 1)[t] == p[j]);
        }
        assert(finish_bounded(succ, fo, i, p));
    }
    // the new component holds every node that reaches its first node both ways
    assert forall|y: usize|
        y < n && #[trigger] reaches(succ, y, c[0]) && reaches(succ, c[0], y) implies c.contains(y) by {
        let q = choose|q: Seq<usize>| #[trigger] is_path(succ, q) && q[0] == c[0] && q.last() == y;
        let s0 = Set::new(|v: usize| v < n && v0[v as int]);
        if v0[y as int] {
            assert forall|a: usize, b: usize| #[trigger]
                edge(succ, a, b) && s0.contains(b) implies s0.contains(a) by {}
            lemma_path_back_closed(succ, q, s0, 0);
        }
        let p = choose|p: Seq<usize>| #[trigger] is_path(succ, p) && p[0] == y && p.last() == c[0];
        let s1 = Set::new(|v: usize| v < n && v1[v as int]);
        assert forall|a: usize, b: usize| #[trigger]
            edge(succ, a, b) && s1.contains(b) implies s1.contains(a) by {}
        assert(v1[c[0] as int]) by {
            assert(c.contains(c[0]));
        }
        lemma_path_back_closed(succ, p, s1, 0);
    }
    assert forall|v: usize| v < n && #[trigger] v1[v as int] implies in_some_component(cs2, v) by {
        if v0[v as int] {
            assert(in_some_component(cs, v));
            let (c0, k0) = choose|c0: int, k0: int|
                0 <= c0 < cs.len() && 0 <= k0 < cs[c0].len() && #[trigger] cs[c0][k0] == v;
            assert(cs2[c0][k0] == v);
        } else {
            let k = choose|k: int| 0 <= k < c.len() && c[k] == v;
            assert(cs2[cs.len() as int][k] == v);
        }
    }
    assert forall|c1: int, k1: int, c2: int, k2: int|
        0 <= c1 < cs2.len() && 0 <= k1 < cs2[c1].len() && 0 <= c2 < cs2.len() && 0 <= k2
            < cs2[c2].len() && #[trigger] cs2[c1][k1] == #[trigger] cs2[c2][k2] implies c1 == c2
            && k1 == k2 by {
        if c1 < cs.len() && c2 == cs.len() {
            assert(v0[cs[c1][k1] as int]);
            assert(!v0[c[k2] as int]);
        } else if c1 == cs.len() && c2 < cs.len() {
            assert(v0[cs[c2][k2] as int]);
            assert(!v0[c[k1] as int]);
        }
    }
    assert forall|c0: int, k: int|
        0 <= c0 < cs2.len() && 0 <= k < cs2[c0].len() implies v1[#[trigger] cs2[c0][k] as int] by {
        if c0 < cs.len() {
            assert(v0[cs[c0][k] as int]);
        } else {
            assert(c.contains(c[k]));
        }
    }
    assert forall|c0: int, k: int, u: usize|
        0 <= c0 < cs2.len() && 0 <= k < cs2[c0].len() && #[trigger] edge(succ, u, cs2[c0][k])
            implies in_some_component(cs2.take(c0 + 1), u) by {
        if c0 < cs.len() {
            assert(cs2.take(c0 + 1) =~= cs.take(c0 + 1));
        } else {
            assert(cs2.take(c0 + 1) =~= cs2);
            assert(v1[u as int]);
            if v0[u as int] {
                assert(in_some_component(cs, u));
                let (a, b) = choose|a: int, b: int|
                    0 <= a < cs.len() && 0 <= b < cs[a].len() && #[trigger] cs[a][b] == u;
                assert(cs2[a][b] == u);
            } else {
                assert(c.contains(u));
                let b = choose|b: int| 0 <= b < c.len() && c[b] == u;
                assert(cs2[cs.len() as int][b] == u);
            }
        }
    }
    assert forall|k: int| i <= k < fo.len() implies v1[#[trigger] fo[k] as int] by {
        if k == i {
            assert(c.contains(c[0]));
        } else {
            assert(v0[fo[k] as int]);
        }
    }
    assert forall|c0: int, y: usize|
        0 <= c0 < cs2.len() && y < n && #[trigger] reaches(succ, y, cs2[c0][0]) && reaches(
            succ,
            cs2[c0][0],
            y,
        ) implies cs2[c0].contains(y) by {
        if c0 == cs.len() {
            assert(reaches(succ, y, c[0]));
        }
    }
}

/// With every node marked, the component state is a decomposition into
/// strongly connected components.
pub proof fn lemma_decomposition(succ: Seq<Seq<usize>>, vis: Seq<bool>, cs: Seq<Seq<usize>>)
    requires
        comp_state(succ, vis, cs),
        forall|v: int| 0 <= v < succ.len() ==> #[trigger] vis[v],
    ensures
        is_scc_decomposition(succ, cs),
{
    let n = succ.len();
    assert forall|v: usize| v < n implies #[trigger] in_some_component(cs, v) by {
        assert(vis[v as int]);
    }
    assert forall|c: int, k1: int, k2: int|
        0 <= c < cs.len() && 0 <= k1 < cs[c].len() && 0 <= k2 < cs[c].len() implies reaches(
        succ,
        #[trigger] cs[c][k1],
        #[trigger] cs[c][k2],
    ) by {
        assert(reaches(succ, cs[c][k1], cs[c][0]));
        assert(reaches(succ, cs[c][0], cs[c][k2]));
        lemma_reaches_trans(succ, cs[c][k1], cs[c][0], cs[c][k2]);
    }
    assert forall|c: int, k: int, y: usize|
        0 <= c < cs.len() && 0 <= k < cs[c].len() && #[trigger] reaches(succ, cs[c][k], y)
            && reaches(succ, y, cs[c][k]) implies cs[c].contains(y) by {
        assert(reaches(succ, cs[c][k], cs[c][0]));
        assert(reaches(succ, cs[c][0], cs[c][k]));
        lemma_reaches_trans(succ, y, cs[c][k], cs[c][0]);
        lemma_reaches_trans(succ, cs[c][0], cs[c][k], y);
        let p = choose|p: Seq<usize>| #[trigger] is_path(succ, p) && p[0] == cs[c][k] && p.last() == y;
        assert(y < n);
    }
    assert forall|c1: int, k1: int, c2: int, k2: int|
        0 <= c1 < cs.len() && 0 <= k1 < cs[c1].len() && 0 <= c2 < cs.len() && 0 <= k2
            < cs[c2].len() && #[trigger] edge(succ, cs[c1][k1], cs[c2][k2]) implies c1 <= c2 by {
        assert(in_some_component(cs.take(c2 + 1), cs[c1][k1]));
        let (a, b) = choose|a: int, b: int|
            0 <= a < cs.take(c2 + 1).len() && 0 <= b < cs.take(c2 + 1)[a].len()
                && #[trigger] cs.take(c2 + 1)[a][b] == cs[c1][k1];
        assert(cs.take(c2 + 1)[a] == cs[a]);
        assert(cs[a][b] == cs[c1][k1]);
    }
}

} // verus!
