//! The cycle search inside a strongly connected component, as a model: a
//! depth-first search that goes through the successors of the node on top of
//! the stack in turn, descends into the first one not yet visited, and stops
//! at the first one still on the stack; the stack is always a path.
use vstd::prelude::*;
use vstd::set_lib::*;

use super::paths::{edge, is_scc_partition, reaches};

verus! {

/// What scanning the successors of one node gives: a closed cycle, or the
/// stack and visited set afterwards and whether anything was pushed.
pub enum ScanOutcome {
    Closed(Seq<usize>),
    Finished(Seq<usize>, Set<usize>, bool),
}

/// The position of the last occurrence of `w` in `s`, or -1.
pub open spec fn index_in(s: Seq<usize>, w: usize) -> int
    decreases s.len(),
{
    if s.len() == 0 {
        -1
    } else if s.last() == w {
        s.len() - 1
    } else {
        index_in(s.drop_last(), w)
    }
}

/// Scans the successors `row[j..]` of the node on top of the search, until
/// one has been pushed (`found`): one outside the component `s` is passed
/// over; the scanned node itself, when `self_loop` names it, closes the cycle
/// of it alone; one not yet visited is pushed and visited, which ends the
/// scan; and one still on the stack closes the cycle that runs from it up the
/// stack and back to it.
#[verifier::opaque]
pub open spec fn scan_row(
    row: Seq<usize>,
    s: Set<usize>,
    self_loop: Option<usize>,
    stack: Seq<usize>,
    visited: Set<usize>,
    j: int,
    found: bool,
) -> ScanOutcome
    decreases row.len() - j,
{
    if found || j < 0 || j >= row.len() {
        ScanOutcome::Finished(stack, visited, found)
    } else {
        let w = row[j];
        if !s.contains(w) {
            scan_row(row, s, self_loop, stack, visited, j + 1, found)
        } else if self_loop == Some(w) {
            ScanOutcome::Closed(seq![w, w])
        } else if !visited.contains(w) {
            scan_row(row, s, self_loop, stack.push(w), visited.insert(w), j + 1, true)
        } else if stack.contains(w) {
            ScanOutcome::Closed(stack.subrange(index_in(stack, w), stack.len() as int).push(w))
        } else {
            scan_row(row, s, self_loop, stack, visited, j + 1, found)
        }
    }
}

/// A scan only adds members of `s` to the visited set, and pushes exactly
/// when it adds.
pub proof fn lemma_scan_row_grows(
    row: Seq<usize>,
    s: Set<usize>,
    self_loop: Option<usize>,
    stack: Seq<usize>,
    visited: Set<usize>,
    j: int,
    found: bool,
)
    requires
        visited.finite(),
    ensures
        match scan_row(row, s, self_loop, stack, visited, j, found) {
            ScanOutcome::Closed(_) => true,
            ScanOutcome::Finished(st, vis, f) => {
                &&& vis.finite()
                &&& visited.subset_of(vis)
                &&& vis.subset_of(visited.union(s))
                &&& (found ==> f)
                &&& (f ==> found || vis.len() > visited.len())
                &&& (!f ==> st == stack && vis == visited)
            },
        },
    decreases row.len() - j,
{
    reveal(scan_row);
    if found || j < 0 || j >= row.len() {
    } else {
        let w = row[j];
        if !s.contains(w) {
            lemma_scan_row_grows(row, s, self_loop, stack, visited, j + 1, found);
        } else if self_loop == Some(w) {
        } else if !visited.contains(w) {
            let v2 = visited.insert(w);
            lemma_scan_row_grows(row, s, self_loop, stack.push(w), v2, j + 1, true);
            match scan_row(row, s, self_loop, stack.push(w), v2, j + 1, true) {
                ScanOutcome::Closed(_) => {},
                ScanOutcome::Finished(st, vis, f) => {
                    lemma_len_subset(v2, vis);
                    assert forall|x: usize| vis.contains(x) implies visited.union(s).contains(x) by {
                        assert(v2.union(s).contains(x));
                    }
                },
            }
        } else if stack.contains(w) {
        } else {
            lemma_scan_row_grows(row, s, self_loop, stack, visited, j + 1, found);
        }
    }
}

/// The cycle that the search finds in the component `s`, continuing from the
/// stack `stack` and the visited set `visited`, with `rows[v]` the successors
/// of `v` in the order they are scanned, and a self-loop closing at once
/// when `loops_first` holds; `None` when the stack runs empty.
#[verifier::opaque]
pub open spec fn dfs_cycle(
    rows: Seq<Seq<usize>>,
    s: Set<usize>,
    loops_first: bool,
    stack: Seq<usize>,
    visited: Set<usize>,
) -> Option<Seq<usize>>
    decreases s.union(visited).len() - visited.len(), stack.len(),
    when s.finite() && visited.finite()
{
    if stack.len() == 0 {
        None
    } else {
        let node = stack.last();
        let sl = if loops_first {
            Some(node)
        } else {
            None
        };
        match scan_row(rows[node as int], s, sl, stack, visited, 0, false) {
            ScanOutcome::Closed(c) => Some(c),
            ScanOutcome::Finished(st, vis, f) => {
                proof {
                    lemma_scan_row_grows(rows[node as int], s, sl, stack, visited, 0, false);
                    assert(s.union(vis) =~= s.union(visited));
                    lemma_len_subset(visited, s.union(visited));
                    lemma_len_subset(vis, s.union(visited));
                    lemma_set_union_finite_iff(s, visited);
                }
                if f {
                    dfs_cycle(rows, s, loops_first, st, vis)
                } else {
                    dfs_cycle(rows, s, loops_first, st.drop_last(), vis)
                }
            },
        }
    }
}

/// The search started at `start` in the component `s`.
pub open spec fn cycle_from(rows: Seq<Seq<usize>>, s: Set<usize>, loops_first: bool, start: usize) -> Option<
    Seq<usize>,
> {
    dfs_cycle(rows, s, loops_first, seq![start], set![start])
}

/// `v` lies on a cycle: an edge leaves it towards a node that reaches back.
pub open spec fn on_cycle(succ: Seq<Seq<usize>>, v: usize) -> bool {
    exists|w: usize| #[trigger] edge(succ, v, w) && reaches(succ, w, v)
}

/// The strongly connected component of `v`: the nodes that `v` reaches and
/// that reach `v`.
pub open spec fn component_of(succ: Seq<Seq<usize>>, v: usize) -> Set<usize> {
    Set::new(|w: usize| reaches(succ, v, w) && reaches(succ, w, v))
}

/// The last occurrence of `w` in `s` is at `p`.
pub proof fn lemma_index_in(s: Seq<usize>, w: usize, p: int)
    requires
        0 <= p < s.len(),
        s[p] == w,
        forall|k: int| p < k < s.len() ==> s[k] != w,
    ensures
        index_in(s, w) == p,
    decreases s.len(),
{
    if s.last() != w {
        assert(p < s.len() - 1);
        let t = s.drop_last();
        assert forall|k: int| p < k < t.len() implies t[k] != w by {
            assert(t[k] == s[k]);
        }
        lemma_index_in(t, w, p);
    }
}


/// A listed component is the component of each of its members.
pub proof fn lemma_component_set(succ: Seq<Seq<usize>>, cs: Seq<Seq<usize>>, c: int, k: int)
    requires
        is_scc_partition(succ, cs),
        0 <= c < cs.len(),
        0 <= k < cs[c].len(),
    ensures
        cs[c].to_set() == component_of(succ, cs[c][k]),
{
    let comp = cs[c];
    assert forall|x: usize| comp.contains(x) implies #[trigger] component_of(succ, cs[c][k]).contains(x) by {
        let m = choose|m: int| 0 <= m < comp.len() && comp[m] == x;
        assert(reaches(succ, cs[c][k], cs[c][m]));
        assert(reaches(succ, cs[c][m], cs[c][k]));
    }
    assert forall|x: usize| #[trigger] component_of(succ, cs[c][k]).contains(x) implies comp.contains(x) by {
        assert(reaches(succ, cs[c][k], x) && reaches(succ, x, cs[c][k]));
    }
    assert(comp.to_set() =~= component_of(succ, cs[c][k]));
}

/// In a component of the node alone, its successors are passed over until
/// the node itself, which closes at once when self-loops close first.
pub proof fn lemma_scan_self_loop(
    row: Seq<usize>,
    node: usize,
    stack: Seq<usize>,
    visited: Set<usize>,
    j: int,
    found: bool,
)
    requires
        0 <= j,
        !found,
        exists|m: int| j <= m < row.len() && row[m] == node,
    ensures
        scan_row(row, set![node], Some(node), stack, visited, j, found) == ScanOutcome::Closed(
            seq![node, node],
        ),
    decreases row.len() - j,
{
    reveal(scan_row);
    if row[j] != node {
        let m = choose|m: int| j <= m < row.len() && row[m] == node;
        assert(m > j);
        lemma_scan_self_loop(row, node, stack, visited, j + 1, found);
    }
}

} // verus!
