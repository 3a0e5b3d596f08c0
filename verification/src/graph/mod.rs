//! A directed graph over labelled nodes, with strongly connected components,
//! cycle detection and a dependency-first ordering.
pub mod paths;
mod dfs_facts;
pub mod scc;
mod scc_facts;
pub mod order;
pub mod search;
pub mod laws;

use vstd::prelude::*;
use vstd::hash_map::StringHashMap;

verus! {

/// What a [`DiGraph`] holds: the successor list of each node, its
/// predecessor list (each in the order the edges were added), the label of
/// each node, and the node id registered under each name.
pub struct GraphModel<L> {
    pub succ: Seq<Seq<usize>>,
    pub pred: Seq<Seq<usize>>,
    pub labels: Seq<L>,
    pub ids: Map<Seq<char>, usize>,
}

impl<L> GraphModel<L> {
    /// The three parts agree on the node count and only name existing nodes.
    pub open spec fn valid(self) -> bool {
        &&& self.succ.len() == self.labels.len()
        &&& forall|u: int, k: int|
            0 <= u < self.succ.len() && 0 <= k < self.succ[u].len() ==> #[trigger] self.succ[u][k]
                < self.succ.len()
        &&& forall|name: Seq<char>| #[trigger]
            self.ids.contains_key(name) ==> self.ids[name] < self.succ.len()
    }
}

/// A directed graph whose nodes are numbered `0..n`, each carrying a label and
/// registered under a name; edges are added between names.
pub struct DiGraph<L = String> where L: Clone {
    adj: Vec<Vec<usize>>,
    rev_adj: Vec<Vec<usize>>,
    id_to_label: Vec<L>,
    label_to_id: StringHashMap<usize>,
}

impl<L: Clone> View for DiGraph<L> {
    type V = GraphModel<L>;

    open spec fn view(&self) -> GraphModel<L> {
        self.model()
    }
}

impl<L: Clone> DiGraph<L> {
    pub closed spec fn model(&self) -> GraphModel<L> {
        GraphModel {
            succ: Seq::new(self.adj@.len(), |u: int| self.adj@[u]@),
            pred: Seq::new(self.rev_adj@.len(), |v: int| self.rev_adj@[v]@),
            labels: self.id_to_label@,
            ids: self.label_to_id@,
        }
    }

    /// The reverse adjacency lists mirror the forward ones, and the model is valid.
    pub closed spec fn wf(&self) -> bool {
        let n = self.id_to_label@.len();
        &&& n <= usize::MAX
        &&& self.adj@.len() == n
        &&& self.rev_adj@.len() == n
        &&& forall|u: int, k: int|
            0 <= u < n && 0 <= k < self.adj@[u]@.len() ==> #[trigger] self.adj@[u]@[k] < n
        &&& forall|v: int, k: int|
            0 <= v < n && 0 <= k < self.rev_adj@[v]@.len() ==> #[trigger] self.rev_adj@[v]@[k]
                < n
        &&& forall|u: usize, v: usize|
            u < n && v < n ==> (#[trigger] self.adj@[u as int]@.contains(v)
                <==> #[trigger] self.rev_adj@[v as int]@.contains(u))
        &&& forall|name: Seq<char>| #[trigger]
            self.label_to_id@.contains_key(name) ==> self.label_to_id@[name] < n
    }

    /// The graph's node count and each node's number of edges fit a `usize`.
    pub proof fn lemma_rows_fit(&self)
        requires
            self.wf(),
        ensures
            self@.succ.len() <= usize::MAX,
            forall|u: int| 0 <= u < self@.succ.len() ==> #[trigger] self@.succ[u].len() <= usize::MAX,
    {
        assert forall|u: int| 0 <= u < self@.succ.len() implies #[trigger] self@.succ[u].len()
            <= usize::MAX by {
            assert(self.adj@[u]@.len() == self.adj@[u].len());
        }
    }

    pub proof fn lemma_wf_valid(&self)
        requires
            self.wf(),
        ensures
            self@.valid(),
    {
    }

    /// An empty graph.
    pub fn new() -> (g: Self)
        ensures
            g.wf(),
            g@.succ.len() == 0,
            g@.pred.len() == 0,
            g@.labels.len() == 0,
            g@.ids == Map::<Seq<char>, usize>::empty(),
    {
        Self::with_capacity(64)
    }

    /// An empty graph with room reserved for `capacity` nodes.
    pub fn with_capacity(capacity: usize) -> (g: Self)
        ensures
            g.wf(),
            g@.succ.len() == 0,
            g@.pred.len() == 0,
            g@.labels.len() == 0,
            g@.ids == Map::<Seq<char>, usize>::empty(),
    {
        let g = Self {
            adj: Vec::with_capacity(capacity),
            rev_adj: Vec::with_capacity(capacity),
            id_to_label: Vec::with_capacity(capacity),
            label_to_id: StringHashMap::with_capacity(capacity),
        };
        assert(g@.succ =~= Seq::<Seq<usize>>::empty());
        assert(g@.pred =~= Seq::<Seq<usize>>::empty());
        g
    }

    /// Adds a node with no edges, registers it under `name` (replacing an
    /// earlier node of that name in the registry) and returns its id.
    pub fn add_node(&mut self, name: &str, label: L) -> (id: usize)
        requires
            old(self).wf(),
            old(self)@.labels.len() < usize::MAX,
        ensures
            final(self).wf(),
            id == old(self)@.labels.len(),
            final(self)@.succ == old(self)@.succ.push(Seq::<usize>::empty()),
            final(self)@.pred == old(self)@.pred.push(Seq::<usize>::empty()),
            final(self)@.labels == old(self)@.labels.push(label),
            final(self)@.ids == old(self)@.ids.insert(name@, id),
    {
        let id = self.id_to_label.len();
        self.label_to_id.insert(name.to_owned(), id);
        self.id_to_label.push(label);
        self.adj.push(Vec::new());
        self.rev_adj.push(Vec::new());
        proof {
            let n = id as int;
            assert forall|u: usize, v: usize|
                u < n + 1 && v < n + 1 implies (#[trigger] self.adj@[u as int]@.contains(v)
                <==> #[trigger] self.rev_adj@[v as int]@.contains(u)) by {
                if u == n {
                    assert(self.adj@[u as int]@ =~= Seq::<usize>::empty());
                }
                if v == n {
                    assert(self.rev_adj@[v as int]@ =~= Seq::<usize>::empty());
                }
                if u < n && v < n {
                    assert(self.adj@[u as int] == old(self).adj@[u as int]);
                    assert(self.rev_adj@[v as int] == old(self).rev_adj@[v as int]);
                }
            }
            assert(self@.succ =~= old(self)@.succ.push(Seq::<usize>::empty()));
            assert(self@.pred =~= old(self)@.pred.push(Seq::<usize>::empty()));
        }
        id
    }

    /// Adds an edge between the nodes registered under `from` and `to`; does
    /// nothing when either name is not registered.
    pub fn add_edge(&mut self, from: &str, to: &str)
        requires
            old(self).wf(),
        ensures
            final(self).wf(),
            final(self)@.labels == old(self)@.labels,
            final(self)@.ids == old(self)@.ids,
            final(self)@.succ == (if old(self)@.ids.contains_key(from@) && old(
                self,
            )@.ids.contains_key(to@) {
                let f = old(self)@.ids[from@] as int;
                old(self)@.succ.update(f, old(self)@.succ[f].push(old(self)@.ids[to@]))
            } else {
                old(self)@.succ
            }),
            final(self)@.pred == (if old(self)@.ids.contains_key(from@) && old(
                self,
            )@.ids.contains_key(to@) {
                let t = old(self)@.ids[to@] as int;
                old(self)@.pred.update(t, old(self)@.pred[t].push(old(self)@.ids[from@]))
            } else {
                old(self)@.pred
            }),
    {
        let from_id = match self.label_to_id.get(from) {
            Some(id) => *id,
            None => return ,
        };
        let to_id = match self.label_to_id.get(to) {
            Some(id) => *id,
            None => return ,
        };
        self.adj[from_id].push(to_id);
        self.rev_adj[to_id].push(from_id);
        proof {
            let n = self.id_to_label@.len();
            assert forall|u: usize, v: usize|
                u < n && v < n implies (#[trigger] self.adj@[u as int]@.contains(v)
                <==> #[trigger] self.rev_adj@[v as int]@.contains(u)) by {
                let oa = old(self).adj@[u as int]@;
                let orv = old(self).rev_adj@[v as int]@;
                if u == from_id {
                    assert(self.adj@[u as int]@ == oa.push(to_id));
                    assert(oa.push(to_id).contains(v) <==> (oa.contains(v) || v == to_id)) by {
                        if oa.push(to_id).contains(v) {
                            let k = choose|k: int| 0 <= k < oa.len() + 1 && oa.push(to_id)[k] == v;
                            if k < oa.len() {
                                assert(oa[k] == v);
                            }
                        }
                        if oa.contains(v) {
                            let k = choose|k: int| 0 <= k < oa.len() && oa[k] == v;
                            assert(oa.push(to_id)[k] == v);
                        }
                        if v == to_id {
                            assert(oa.push(to_id)[oa.len() as int] == v);
                        }
                    }
                } else {
                    assert(self.adj@[u as int] == old(self).adj@[u as int]);
                }
                if v == to_id {
                    assert(self.rev_adj@[v as int]@ == orv.push(from_id));
                    assert(orv.push(from_id).contains(u) <==> (orv.contains(u) || u == from_id))
                        by {
                        if orv.push(from_id).contains(u) {
                            let k = choose|k: int|
                                0 <= k < orv.len() + 1 && orv.push(from_id)[k] == u;
                            if k < orv.len() {
                                assert(orv[k] == u);
                            }
                        }
                        if orv.contains(u) {
                            let k = choose|k: int| 0 <= k < orv.len() && orv[k] == u;
                            assert(orv.push(from_id)[k] == u);
                        }
                        if u == from_id {
                            assert(orv.push(from_id)[orv.len() as int] == u);
                        }
                    }
                } else {
                    assert(self.rev_adj@[v as int] == old(self).rev_adj@[v as int]);
                }
            }
            assert forall|u: int, k: int|
                0 <= u < n && 0 <= k < self.adj@[u]@.len() implies #[trigger] self.adj@[u]@[k]
                < n by {
                if u != from_id {
                    assert(self.adj@[u] == old(self).adj@[u]);
                }
            }
            assert forall|v: int, k: int|
                0 <= v < n && 0 <= k < self.rev_adj@[v]@.len() implies #[trigger] self.rev_adj@[v]@[k]
                < n by {
                if v != to_id {
                    assert(self.rev_adj@[v] == old(self).rev_adj@[v]);
                }
            }
            assert(self@.succ =~= old(self)@.succ.update(
                from_id as int,
                old(self)@.succ[from_id as int].push(to_id),
            ));
            assert(self@.pred =~= old(self)@.pred.update(
                to_id as int,
                old(self)@.pred[to_id as int].push(from_id),
            ));
        }
    }

    /// The id registered under `name`, if any.
    pub fn get_id(&self, name: &str) -> (id: Option<usize>)
        ensures
            id == (if self@.ids.contains_key(name@) {
                Some(self@.ids[name@])
            } else {
                None
            }),
    {
        match self.label_to_id.get(name) {
            Some(id) => Some(*id),
            None => None,
        }
    }

    /// The label of node `id`, if it exists.
    pub fn get_label(&self, id: usize) -> (label: Option<&L>)
        ensures
            label == (if id < self@.labels.len() {
                Some(&self@.labels[id as int])
            } else {
                None
            }),
    {
        if id < self.id_to_label.len() {
            Some(&self.id_to_label[id])
        } else {
            None
        }
    }

    /// The number of nodes.
    pub fn node_count(&self) -> (n: usize)
        ensures
            n == self@.labels.len(),
    {
        self.id_to_label.len()
    }

    /// Whether there is an edge `from -> to`.
    pub fn has_edge(&self, from: usize, to: usize) -> (b: bool)
        requires
            self.wf(),
        ensures
            b == (from < self@.succ.len() && self@.succ[from as int].contains(to)),
    {
        if from >= self.adj.len() {
            return false;
        }
        let row = &self.adj[from];
        let mut k: usize = 0;
        while k < row.len()
            invariant
                from < self.adj@.len(),
                row@ == self@.succ[from as int],
                k <= row.len(),
                forall|j: int| 0 <= j < k ==> row@[j] != to,
            decreases row.len() - k,
        {
            if row[k] == to {
                return true;
            }
            k += 1;
        }
        false
    }

    /// The successors of `node`, empty when the node does not exist.
    pub fn neighbors(&self, node: usize) -> (succ: &[usize])
        ensures
            succ@ == (if node < self@.succ.len() {
                self@.succ[node as int]
            } else {
                Seq::<usize>::empty()
            }),
    {
        if node < self.adj.len() {
            self.adj[node].as_slice()
        } else {
            &[]
        }
    }
}

impl<L: Clone> Default for DiGraph<L> {
    fn default() -> (g: Self)
        ensures
            g.wf(),
            g@.succ.len() == 0,
            g@.labels.len() == 0,
            g@.ids == Map::<Seq<char>, usize>::empty(),
    {
        Self::new()
    }
}

} // verus!
