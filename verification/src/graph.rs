//! The directed graph and its identity map.
//!
//! A `Graph` owns an insertion-order table of external node identifiers
//! (the identity map: position `i` holds the identifier of the node with
//! dense internal index `i`) and a list of directed edges over internal
//! indices. Edges are kept exactly as added: parallel edges and self-loops
//! each stay one entry. Nothing is ever removed.

use vstd::prelude::*;

verus! {

use vstd::set_lib::lemma_len_subset;
use vstd::set_lib::lemma_int_range;
use vstd::set_lib::set_int_range;

/// Mathematical model of a [`Graph`]: the external identifiers in
/// insertion order, and the directed edges as pairs of internal indices
/// in insertion order.
pub ghost struct GraphModel {
    pub ids: Seq<u32>,
    pub links: Seq<(usize, usize)>,
}

/// There is an edge from internal index `u` to internal index `v`.
pub open spec fn edge_between(m: GraphModel, u: int, v: int) -> bool {
    exists|k: int| 0 <= k < m.links.len() && (#[trigger] m.links[k]).0 == u && m.links[k].1 == v
}

/// `u` and `v` are joined by at least one edge in either direction.
pub open spec fn undirected_adjacent(m: GraphModel, u: int, v: int) -> bool {
    edge_between(m, u, v) || edge_between(m, v, u)
}

#[derive(Debug)]
pub struct Graph {
    nodes: Vec<u32>,
    edges: Vec<(usize, usize)>,
}

impl View for Graph {
    type V = GraphModel;

    closed spec fn view(&self) -> GraphModel {
        GraphModel { ids: self.nodes@, links: self.edges@ }
    }
}

impl Graph {
    /// Well-formedness: identifiers are unique (the identity map is a
    /// bijection between registered identifiers and `0..ids.len()`), and
    /// every edge endpoint is a registered internal index.
    pub open spec fn wf(&self) -> bool {
        &&& self@.ids.no_duplicates()
        &&& forall|k: int|
            0 <= k < self@.links.len() ==> (#[trigger] self@.links[k]).0 < self@.ids.len()
                && self@.links[k].1 < self@.ids.len()
    }

    /// An empty graph: no nodes, no edges.
    pub fn new() -> (g: Graph)
        ensures
            g.wf(),
            g@.ids == Seq::<u32>::empty(),
            g@.links == Seq::<(usize, usize)>::empty(),
    {
        Graph { nodes: Vec::new(), edges: Vec::new() }
    }

    pub fn node_count(&self) -> (n: usize)
        ensures
            n == self@.ids.len(),
    {
        self.nodes.len()
    }

    pub fn edge_count(&self) -> (n: usize)
        ensures
            n == self@.links.len(),
    {
        self.edges.len()
    }

    /// The external identifier of the node with internal index `idx`.
    pub fn node_id(&self, idx: usize) -> (id: u32)
        requires
            idx < self@.ids.len(),
        ensures
            id == self@.ids[idx as int],
    {
        self.nodes[idx]
    }

    /// The `k`-th edge, as a `(from, to)` pair of internal indices.
    pub fn link_at(&self, k: usize) -> (e: (usize, usize))
        requires
            k < self@.links.len(),
        ensures
            e == self@.links[k as int],
    {
        self.edges[k]
    }

    /// Looks an external identifier up in the identity map.
    pub fn find_node(&self, id: u32) -> (r: Option<usize>)
        ensures
            match r {
                Some(i) => i < self@.ids.len() && self@.ids[i as int] == id,
                None => !self@.ids.contains(id),
            },
    {
        let n = self.nodes.len();
        for i in 0..n
            invariant
                n == self@.ids.len(),
                forall|j: int| 0 <= j < i ==> self@.ids[j] != id,
        {
            if self.nodes[i] == id {
                return Some(i);
            }
        }
        None
    }

    /// Insert-or-look-up in the identity map: the same identifier always
    /// resolves to the same internal index; a new identifier is assigned
    /// the next unused index. Edges are untouched.
    pub fn resolve(&mut self, id: u32) -> (idx: usize)
        requires
            old(self).wf(),
        ensures
            final(self).wf(),
            final(self)@.links == old(self)@.links,
            idx < final(self)@.ids.len(),
            final(self)@.ids[idx as int] == id,
            old(self)@.ids.contains(id) ==> final(self)@.ids == old(self)@.ids,
            !old(self)@.ids.contains(id) ==> final(self)@.ids == old(self)@.ids.push(id)
                && idx == old(self)@.ids.len(),
    {
        match self.find_node(id) {
            Some(i) => {
                proof {
                    assert(self@.ids.contains(id));
                }
                i
            },
            None => {
                let idx = self.nodes.len();
                self.nodes.push(id);
                proof {
                    assert forall|k: int| 0 <= k < self@.links.len()
                        implies (#[trigger] self@.links[k]).0 < self@.ids.len()
                            && self@.links[k].1 < self@.ids.len() by {
                        assert(self@.links[k] == old(self)@.links[k]);
                        assert((#[trigger] old(self)@.links[k]).0 < old(self)@.ids.len());
                    }
                    let pre = old(self)@.ids;
                    assert forall|i: int, j: int|
                        0 <= i < self@.ids.len() && 0 <= j < self@.ids.len() && i != j
                        implies self@.ids[i] != self@.ids[j] by {
                        if i < pre.len() && j < pre.len() {
                            assert(pre[i] != pre[j]);
                        } else if j == pre.len() {
                            assert(pre[i] != id);
                        } else {
                            assert(pre[j] != id);
                        }
                    }
                }
                idx
            },
        }
    }

    /// Appends one directed edge between two registered internal indices.
    pub fn add_edge(&mut self, from: usize, to: usize)
        requires
            old(self).wf(),
            from < old(self)@.ids.len(),
            to < old(self)@.ids.len(),
        ensures
            final(self).wf(),
            final(self)@.ids == old(self)@.ids,
            final(self)@.links == old(self)@.links.push((from, to)),
    {
        self.edges.push((from, to));
        proof {
            assert(self@.ids.no_duplicates());
            assert forall|k: int| 0 <= k < self@.links.len()
                implies (#[trigger] self@.links[k]).0 < self@.ids.len()
                    && self@.links[k].1 < self@.ids.len() by {
                if k < old(self)@.links.len() {
                    assert(self@.links[k] == old(self)@.links[k]);
                } else {
                    assert(self@.links[k] == (from, to));
                }
            }
        }
    }
}

/// The internal index an identifier resolves to. Meaningful whenever the
/// table holds `x`; unique whenever the table has no duplicates.
pub open spec fn id_index(ids: Seq<u32>, x: u32) -> int {
    choose|i: int| 0 <= i < ids.len() && ids[i] == x
}

/// A sequence of pairwise distinct `u32` values cannot be longer than the
/// number of `u32` values: the identity map can never hold more than
/// `2^32` nodes.
pub proof fn lemma_distinct_ids_bound(s: Seq<u32>)
    requires
        s.no_duplicates(),
    ensures
        s.len() <= 0x1_0000_0000,
{
    let t = s.map_values(|x: u32| x as int);
    assert forall|i: int, j: int| 0 <= i < t.len() && 0 <= j < t.len() && i != j
        implies t[i] != t[j] by {
        assert(s[i] != s[j]);
    }
    t.unique_seq_to_set();
    let r = set_int_range(0, 0x1_0000_0000);
    lemma_int_range(0, 0x1_0000_0000);
    assert forall|x: int| t.to_set().contains(x) implies r.contains(x) by {
        let k = choose|k: int| 0 <= k < t.len() && t[k] == x;
        assert(0 <= (s[k] as int) < 0x1_0000_0000);
    }
    lemma_len_subset(t.to_set(), r);
}

} // verus!
