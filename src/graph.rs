//! The immutable road graph, walks through it, and snapping to the nearest node.
use vstd::prelude::*;
use crate::model::{Node, Neighbor, Path};

verus! {

/// Whether an adjacency array fits a node array: one list per node, and every
/// entry names a node that exists.
pub open spec fn adjacency_ok(nodes: Seq<Node>, adj: Seq<Vec<Neighbor>>) -> bool {
    &&& adj.len() == nodes.len()
    &&& forall|u: int, j: int|
        0 <= u < adj.len() && 0 <= j < adj[u]@.len() ==> (#[trigger] adj[u]@[j]).node_index
            < nodes.len()
}

/// The road network: nodes by dense index, and for each node its adjacency
/// list. It is never changed once built.
pub struct Graph {
    nodes: Vec<Node>,
    adj: Vec<Vec<Neighbor>>,
}

impl Graph {
    pub closed spec fn spec_nodes(&self) -> Seq<Node> {
        self.nodes@
    }

    pub closed spec fn spec_adj(&self) -> Seq<Vec<Neighbor>> {
        self.adj@
    }

    pub open spec fn wf(&self) -> bool {
        adjacency_ok(self.spec_nodes(), self.spec_adj())
    }

    pub open spec fn node_count(&self) -> int {
        self.spec_nodes().len() as int
    }

    pub open spec fn degree(&self, u: int) -> int {
        self.spec_adj()[u]@.len() as int
    }

    /// The `j`-th adjacency entry of node `u`.
    pub open spec fn entry(&self, u: int, j: int) -> Neighbor {
        self.spec_adj()[u]@[j]
    }

    /// `slots[t]` picks the adjacency entry of `p[t]` that leads to `p[t + 1]`.
    pub open spec fn follows(&self, p: Seq<usize>, slots: Seq<usize>) -> bool {
        &&& p.len() == slots.len() + 1
        &&& p[0] < self.node_count()
        &&& forall|t: int|
            0 <= t < slots.len() ==> #[trigger] slots[t] < self.degree(p[t] as int) && self.entry(
                p[t] as int,
                slots[t] as int,
            ).node_index == p[t + 1]
    }

    /// The summed length of the entries that `slots` picks along `p`.
    pub open spec fn length_along(&self, p: Seq<usize>, slots: Seq<usize>) -> int
        decreases slots.len(),
    {
        if slots.len() == 0 {
            0
        } else {
            self.length_along(p.drop_last(), slots.drop_last()) + self.entry(
                p[slots.len() - 1] as int,
                slots.last() as int,
            ).edge_data.length_mm
        }
    }

    /// `p` is a walk through the graph.
    pub open spec fn is_walk(&self, p: Seq<usize>) -> bool {
        exists|slots: Seq<usize>| self.follows(p, slots)
    }

    /// `p` is a walk through the graph that can be taken with length `d`.
    pub open spec fn is_route(&self, p: Seq<usize>, d: int) -> bool {
        exists|slots: Seq<usize>| self.follows(p, slots) && self.length_along(p, slots) == d
    }

    /// Some walk leads from `a` to `b`.
    pub open spec fn reachable(&self, a: int, b: int) -> bool {
        exists|p: Seq<usize>| #[trigger] self.is_walk(p) && p[0] == a && p.last() == b
    }

    pub fn new(nodes: Vec<Node>, adj: Vec<Vec<Neighbor>>) -> (r: Self)
        requires
            adjacency_ok(nodes@, adj@),
        ensures
            r.wf(),
            r.spec_nodes() == nodes@,
            r.spec_adj() == adj@,
    {
        Graph { nodes, adj }
    }

    pub fn nodes(&self) -> (r: &Vec<Node>)
        ensures
            r@ == self.spec_nodes(),
    {
        &self.nodes
    }

    pub fn adj(&self) -> (r: &Vec<Vec<Neighbor>>)
        ensures
            r@ == self.spec_adj(),
    {
        &self.adj
    }

    /// Extending a walk by one adjacency entry keeps it a walk, and adds that
    /// entry's length.
    pub proof fn lemma_follows_push(&self, p: Seq<usize>, slots: Seq<usize>, j: usize)
        requires
            self.wf(),
            self.follows(p, slots),
            j < self.degree(p.last() as int),
        ensures
            self.follows(
                p.push(self.entry(p.last() as int, j as int).node_index),
                slots.push(j),
            ),
            self.length_along(
                p.push(self.entry(p.last() as int, j as int).node_index),
                slots.push(j),
            ) == self.length_along(p, slots) + self.entry(
                p.last() as int,
                j as int,
            ).edge_data.length_mm,
    {
        let v = self.entry(p.last() as int, j as int).node_index;
        let p2 = p.push(v);
        let s2 = slots.push(j);
        assert(p2.drop_last() =~= p);
        assert(s2.drop_last() =~= slots);
        assert forall|t: int| 0 <= t < s2.len() implies #[trigger] s2[t] < self.degree(
            p2[t] as int,
        ) && self.entry(p2[t] as int, s2[t] as int).node_index == p2[t + 1] by {
            if t < slots.len() {
                assert(slots[t] == s2[t]);
            }
        }
    }

    /// Every node of a walk exists.
    pub proof fn lemma_follows_in_range(&self, p: Seq<usize>, slots: Seq<usize>)
        requires
            self.wf(),
            self.follows(p, slots),
        ensures
            forall|t: int| 0 <= t < p.len() ==> #[trigger] p[t] < self.node_count(),
    {
        assert forall|t: int| 0 <= t < p.len() implies #[trigger] p[t] < self.node_count() by {
            self.lemma_follows_at(p, slots, t);
        }
    }

    pub proof fn lemma_follows_at(&self, p: Seq<usize>, slots: Seq<usize>, t: int)
        requires
            self.wf(),
            self.follows(p, slots),
            0 <= t < p.len(),
        ensures
            p[t] < self.node_count(),
        decreases t,
    {
        if t > 0 {
            self.lemma_follows_at(p, slots, t - 1);
            assert(slots[t - 1] < self.degree(p[t - 1] as int));
            assert(self.entry(p[t - 1] as int, slots[t - 1] as int).node_index == p[t]);
        }
    }

    /// The node records along `p`.
    pub open spec fn nodes_along(&self, p: Seq<usize>) -> Seq<Node> {
        p.map_values(|i: usize| self.spec_nodes()[i as int])
    }

    /// Copies the nodes at `indices`, in order, into a fresh route of length
    /// `distance`.
    pub fn convert_to_path(&self, indices: &Vec<usize>, distance: u64) -> (r: Path)
        requires
            self.wf(),
            forall|t: int| 0 <= t < indices@.len() ==> #[trigger] indices@[t] < self.node_count(),
        ensures
            r.distance == distance,
            r.nodes@.len() == indices@.len(),
            forall|t: int|
                0 <= t < indices@.len() ==> #[trigger] r.nodes@[t] == self.spec_nodes()[indices@[t] as int],
    {
        let mut nodes: Vec<Node> = Vec::new();
        let mut t: usize = 0;
        while t < indices.len()
            invariant
                t <= indices@.len(),
                nodes@.len() == t,
                forall|s: int| 0 <= s < indices@.len() ==> #[trigger] indices@[s] < self.node_count(),
                forall|s: int|
                    0 <= s < t ==> #[trigger] nodes@[s] == self.spec_nodes()[indices@[s] as int],
            decreases indices@.len() - t,
        {
            nodes.push(self.nodes[indices[t]]);
            t += 1;
        }
        Path::new(nodes, distance)
    }
}

/// The index of the first smallest value of `ds`: every value is at least
/// the one at the result, and every value before it is larger.
pub fn nearest_index(ds: &Vec<u64>) -> (r: usize)
    requires
        ds@.len() > 0,
    ensures
        r < ds@.len(),
        forall|i: int| 0 <= i < ds@.len() ==> ds@[r as int] <= #[trigger] ds@[i],
        forall|i: int| 0 <= i < r ==> ds@[r as int] < #[trigger] ds@[i],
{
    let mut idx: usize = 0;
    let mut best: u64 = ds[0];
    let mut i: usize = 1;
    while i < ds.len()
        invariant
            1 <= i <= ds@.len(),
            idx < i,
            best == ds@[idx as int],
            forall|s: int| 0 <= s < i ==> best <= #[trigger] ds@[s],
            forall|s: int| 0 <= s < idx ==> best < #[trigger] ds@[s],
        decreases ds@.len() - i,
    {
        if ds[i] < best {
            best = ds[i];
            idx = i;
        }
        i += 1;
    }
    idx
}

/// Snapping is idempotent: take `i`, the node that `nearest_index` picks for
/// a point (distances `to_point`), and snap the position of node `i` itself
/// (distances `to_node`). Where only nodes at the position of `i` are at
/// distance zero from it, and those are as far from the point as `i` is,
/// node `i` is picked again.
pub proof fn lemma_snap_idempotent(to_point: Seq<u64>, to_node: Seq<u64>, i: int)
    requires
        to_point.len() == to_node.len(),
        0 <= i < to_point.len(),
        forall|s: int| 0 <= s < to_point.len() ==> to_point[i] <= #[trigger] to_point[s],
        forall|s: int| 0 <= s < i ==> to_point[i] < #[trigger] to_point[s],
        to_node[i] == 0,
        forall|s: int|
            0 <= s < to_node.len() && #[trigger] to_node[s] == 0 ==> to_point[s] == to_point[i],
    ensures
        forall|s: int| 0 <= s < to_node.len() ==> to_node[i] <= #[trigger] to_node[s],
        forall|s: int| 0 <= s < i ==> to_node[i] < #[trigger] to_node[s],
{
    assert forall|s: int| 0 <= s < i implies to_node[i] < #[trigger] to_node[s] by {
        if to_node[s] == 0 {
            assert(to_point[s] == to_point[i]);
        }
    }
}

} // verus!
