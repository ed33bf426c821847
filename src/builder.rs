//! Building a graph from nodes and ways, with a symmetric adjacency.
use vstd::prelude::*;
use std::collections::HashMap;
use crate::model::{Node, Neighbor, EdgeData, Way};
use crate::graph::{Graph, adjacency_ok};

verus! {

broadcast use vstd::std_specs::hash::group_hash_axioms;

/// The adjacency lists seen as sequences.
pub open spec fn lists(adj: Seq<Vec<Neighbor>>) -> Seq<Seq<Neighbor>> {
    adj.map_values(|l: Vec<Neighbor>| l@)
}

/// Every entry names its neighbour by that neighbour's own identifier.
pub open spec fn ids_consistent(nodes: Seq<Node>, adj: Seq<Vec<Neighbor>>) -> bool {
    forall|u: int, j: int|
        0 <= u < adj.len() && 0 <= j < adj[u]@.len() ==> (#[trigger] adj[u]@[j]).osm_id
            == nodes[adj[u]@[j].node_index as int].spec_id()
}

/// Node `v` has an entry back to `u` with edge data `e`.
pub open spec fn has_back_entry(adj: Seq<Vec<Neighbor>>, v: int, u: int, e: EdgeData) -> bool {
    exists|j2: int|
        0 <= j2 < adj[v]@.len() && (#[trigger] adj[v]@[j2]).node_index == u && adj[v]@[j2].edge_data
            == e
}

/// Every entry from `u` to `v` is matched by an entry from `v` back to `u`
/// with the same edge data.
pub open spec fn symmetric(adj: Seq<Vec<Neighbor>>) -> bool {
    forall|u: int, j: int|
        0 <= u < adj.len() && 0 <= j < adj[u]@.len() ==> has_back_entry(
            adj,
            (#[trigger] adj[u]@[j]).node_index as int,
            u,
            adj[u]@[j].edge_data,
        )
}

/// Each adjacency list of `a` is still there in `b`, with what it held at
/// the front.
pub open spec fn grows(a: Seq<Vec<Neighbor>>, b: Seq<Vec<Neighbor>>) -> bool {
    &&& a.len() <= b.len()
    &&& forall|u: int| 0 <= u < a.len() ==> a[u]@.len() <= #[trigger] b[u]@.len()
    &&& forall|u: int, j: int| 0 <= u < a.len() && 0 <= j < a[u]@.len() ==> #[trigger] b[u]@[j] == a[u]@[j]
}

/// Pair `t` of `way` is joined in `adj`: each of its two nodes has an
/// entry pointing at the other, with the way's identifier and the pair's
/// length.
pub open spec fn joined(
    adj: Seq<Vec<Neighbor>>,
    map: Map<u64, usize>,
    way: &Way,
    lens: Seq<u64>,
    t: int,
) -> bool {
    let a = way.nodes@[t];
    let b = way.nodes@[t + 1];
    let e = EdgeData { way_id: way.id, length_mm: lens[t] };
    &&& map.contains_key(a.spec_id())
    &&& map.contains_key(b.spec_id())
    &&& adj[map[a.spec_id()] as int]@.contains(
        Neighbor { osm_id: b.spec_id(), node_index: map[b.spec_id()], edge_data: e },
    )
    &&& adj[map[b.spec_id()] as int]@.contains(
        Neighbor { osm_id: a.spec_id(), node_index: map[a.spec_id()], edge_data: e },
    )
}

/// What a builder holds: its nodes, its identifier map and its adjacency
/// lists.
pub type BuildState = (Seq<Node>, Map<u64, usize>, Seq<Seq<Neighbor>>);

/// The state after registering `node`: unchanged where its identifier is
/// known, else the node appended with the next index and an empty list.
pub open spec fn node_added(st: BuildState, node: Node) -> BuildState {
    if st.1.contains_key(node.spec_id()) {
        st
    } else {
        (st.0.push(node), st.1.insert(node.spec_id(), st.0.len() as usize), st.2.push(Seq::empty()))
    }
}

/// The state after joining the nodes with identifiers `from` and `to`: an
/// entry appended to each one's list, pointing at the other. Unchanged where
/// either is unknown.
pub open spec fn edge_added(st: BuildState, from: u64, to: u64, e: EdgeData) -> BuildState {
    if st.1.contains_key(from) && st.1.contains_key(to) {
        let fi = st.1[from] as int;
        let ti = st.1[to] as int;
        let l1 = st.2.update(fi, st.2[fi].push(Neighbor { osm_id: to, node_index: ti as usize, edge_data: e }));
        (st.0, st.1, l1.update(ti, l1[ti].push(Neighbor { osm_id: from, node_index: fi as usize, edge_data: e })))
    } else {
        st
    }
}

/// The state after the first `t` consecutive pairs of `way`: for each pair,
/// both nodes registered and then joined with the way's identifier and the
/// pair's length.
pub open spec fn way_added(st: BuildState, way: Way, lens: Seq<u64>, t: nat) -> BuildState
    decreases t,
{
    if t == 0 {
        st
    } else {
        let a = way.nodes@[t - 1];
        let b = way.nodes@[t as int];
        edge_added(
            node_added(node_added(way_added(st, way, lens, (t - 1) as nat), a), b),
            a.spec_id(),
            b.spec_id(),
            EdgeData { way_id: way.id, length_mm: lens[t - 1] },
        )
    }
}

/// Why an edge could not be added.
#[derive(Debug, Clone, Copy, PartialEq, Eq)]
pub enum BuildError {
    /// No node with this identifier has been added.
    UnknownNode(u64),
}

/// Collects nodes and edges and hands out the finished graph. It maps each
/// source identifier to the dense index that its node was given.
pub struct GraphBuilder {
    id_to_idx: HashMap<u64, usize>,
    nodes: Vec<Node>,
    adj: Vec<Vec<Neighbor>>,
}

impl GraphBuilder {
    pub closed spec fn id_map(&self) -> Map<u64, usize> {
        self.id_to_idx@
    }

    pub closed spec fn spec_nodes(&self) -> Seq<Node> {
        self.nodes@
    }

    pub closed spec fn spec_adj(&self) -> Seq<Vec<Neighbor>> {
        self.adj@
    }

    /// The identifier map and the node array agree, each node's identifier
    /// maps to its position, and the adjacency is consistent and symmetric.
    pub open spec fn state(&self) -> BuildState {
        (self.spec_nodes(), self.id_map(), lists(self.spec_adj()))
    }

    pub open spec fn wf(&self) -> bool {
        &&& adjacency_ok(self.spec_nodes(), self.spec_adj())
        &&& ids_consistent(self.spec_nodes(), self.spec_adj())
        &&& symmetric(self.spec_adj())
        &&& forall|id: u64| #[trigger]
            self.id_map().contains_key(id) ==> self.id_map()[id] < self.spec_nodes().len()
                && self.spec_nodes()[self.id_map()[id] as int].spec_id() == id
        &&& forall|i: int|
            0 <= i < self.spec_nodes().len() ==> self.id_map().contains_key(
                (#[trigger] self.spec_nodes()[i]).spec_id(),
            ) && self.id_map()[self.spec_nodes()[i].spec_id()] == i
    }

    pub fn new() -> (r: Self)
        ensures
            r.wf(),
            r.spec_nodes().len() == 0,
            r.id_map() == Map::<u64, usize>::empty(),
    {
        GraphBuilder { id_to_idx: HashMap::new(), nodes: Vec::new(), adj: Vec::new() }
    }

    /// Registers `node` unless its identifier is known already, and returns
    /// its dense index.
    pub fn add_node(&mut self, node: Node) -> (r: usize)
        requires
            old(self).wf(),
        ensures
            final(self).wf(),
            grows(old(self).spec_adj(), final(self).spec_adj()),
            forall|id: u64| #[trigger]
                old(self).id_map().contains_key(id) ==> final(self).id_map().contains_key(id)
                    && final(self).id_map()[id] == old(self).id_map()[id],
            final(self).id_map().contains_key(node.spec_id()),
            r == final(self).id_map()[node.spec_id()],
            final(self).state() == node_added(old(self).state(), node),
            old(self).id_map().contains_key(node.spec_id()) ==> {
                &&& r == old(self).id_map()[node.spec_id()]
                &&& final(self).id_map() == old(self).id_map()
                &&& final(self).spec_nodes() == old(self).spec_nodes()
                &&& final(self).spec_adj() == old(self).spec_adj()
            },
            !old(self).id_map().contains_key(node.spec_id()) ==> {
                &&& r == old(self).spec_nodes().len()
                &&& final(self).id_map() == old(self).id_map().insert(node.spec_id(), r)
                &&& final(self).spec_nodes() == old(self).spec_nodes().push(node)
                &&& lists(final(self).spec_adj()) == lists(old(self).spec_adj()).push(
                    Seq::<Neighbor>::empty(),
                )
            },
    {
        let id = node.id();
        if self.id_to_idx.contains_key(&id) {
            return *self.id_to_idx.get(&id).unwrap();
        }
        let idx = self.nodes.len();
        self.id_to_idx.insert(id, idx);
        self.nodes.push(node);
        self.adj.push(Vec::new());
        proof {
            let on = old(self).spec_nodes();
            let oa = old(self).spec_adj();
            let na = self.spec_adj();
            assert forall|u: int, j: int| 0 <= u < na.len() && 0 <= j < na[u]@.len() implies {
                &&& (#[trigger] na[u]@[j]).node_index < self.spec_nodes().len()
                &&& na[u]@[j].osm_id == self.spec_nodes()[na[u]@[j].node_index as int].spec_id()
                &&& has_back_entry(na, na[u]@[j].node_index as int, u, na[u]@[j].edge_data)
            } by {
                assert(u < oa.len());
                assert(na[u] == oa[u]);
                let v = oa[u]@[j].node_index as int;
                assert(self.spec_nodes()[v] == on[v]);
                assert(has_back_entry(oa, v, u, oa[u]@[j].edge_data));
                let j2 = choose|j2: int|
                    0 <= j2 < oa[v]@.len() && (#[trigger] oa[v]@[j2]).node_index == u
                        && oa[v]@[j2].edge_data == oa[u]@[j].edge_data;
                assert(na[v] == oa[v]);
                assert(na[v]@[j2] == oa[v]@[j2]);
            }
            assert forall|id: u64| #[trigger] self.id_map().contains_key(id) implies self.id_map()[id]
                < self.spec_nodes().len() && self.spec_nodes()[self.id_map()[id] as int].spec_id()
                == id by {
                if id != node.spec_id() {
                    assert(old(self).id_map().contains_key(id));
                    assert(self.spec_nodes()[self.id_map()[id] as int] == on[self.id_map()[id] as int]);
                }
            }
            assert(lists(na) =~= lists(oa).push(Seq::<Neighbor>::empty()));
            assert forall|u: int| 0 <= u < oa.len() implies #[trigger] na[u] == oa[u] by {}
            assert forall|i: int| 0 <= i < self.spec_nodes().len() implies self.id_map().contains_key(
                (#[trigger] self.spec_nodes()[i]).spec_id(),
            ) && self.id_map()[self.spec_nodes()[i].spec_id()] == i by {
                if i < on.len() {
                    assert(self.spec_nodes()[i] == on[i]);
                }
            }
        }
        idx
    }

    /// Adds an undirected edge between the nodes with identifiers `from` and
    /// `to`: one entry at each end, pointing at the other, both carrying
    /// `edge_data`. Fails, changing nothing, where either is unknown.
    pub fn add_edge_bidirectional(&mut self, from: u64, to: u64, edge_data: EdgeData) -> (r:
        Result<(), BuildError>)
        requires
            old(self).wf(),
        ensures
            final(self).wf(),
            grows(old(self).spec_adj(), final(self).spec_adj()),
            final(self).id_map() == old(self).id_map(),
            final(self).spec_nodes() == old(self).spec_nodes(),
            final(self).state() == edge_added(old(self).state(), from, to, edge_data),
            !old(self).id_map().contains_key(from) ==> r == Err::<(), BuildError>(
                BuildError::UnknownNode(from),
            ) && final(self).spec_adj() == old(self).spec_adj(),
            old(self).id_map().contains_key(from) && !old(self).id_map().contains_key(to) ==> r
                == Err::<(), BuildError>(BuildError::UnknownNode(to)) && final(self).spec_adj()
                == old(self).spec_adj(),
            old(self).id_map().contains_key(from) && old(self).id_map().contains_key(to) ==> {
                let fi = old(self).id_map()[from] as int;
                let ti = old(self).id_map()[to] as int;
                let l = lists(old(self).spec_adj());
                let l1 = l.update(fi, l[fi].push(Neighbor { osm_id: to, node_index: ti as usize, edge_data }));
                &&& r == Ok::<(), BuildError>(())
                &&& lists(final(self).spec_adj()) == l1.update(
                    ti,
                    l1[ti].push(Neighbor { osm_id: from, node_index: fi as usize, edge_data }),
                )
            },
    {
        let from_idx = match self.id_to_idx.get(&from) {
            Some(i) => *i,
            None => {
                return Err(BuildError::UnknownNode(from));
            },
        };
        let to_idx = match self.id_to_idx.get(&to) {
            Some(i) => *i,
            None => {
                return Err(BuildError::UnknownNode(to));
            },
        };
        let ghost oa = self.spec_adj();
        let fwd = Neighbor { osm_id: to, node_index: to_idx, edge_data };
        let bwd = Neighbor { osm_id: from, node_index: from_idx, edge_data };
        self.adj[from_idx].push(fwd);
        let ghost a1 = self.spec_adj();
        self.adj[to_idx].push(bwd);
        proof {
            let na = self.spec_adj();
            let fi = from_idx as int;
            let ti = to_idx as int;
            let l = lists(oa);
            assert(l.len() == oa.len());
            let l1 = l.update(fi, l[fi].push(fwd));
            assert(lists(a1) =~= l1);
            assert(lists(na) =~= l1.update(ti, l1[ti].push(bwd)));
            // Every list only grew: old entries stay where they were.
            assert forall|u: int, j: int| 0 <= u < oa.len() && 0 <= j < oa[u]@.len() implies
                #[trigger] na[u]@[j] == oa[u]@[j] by {
                if u == fi {
                    assert(a1[u]@[j] == oa[u]@[j]);
                }
                if u == ti {
                    assert(na[u]@[j] == a1[u]@[j]);
                } else {
                    assert(na[u] == a1[u]);
                }
            }
            assert(na[fi]@[oa[fi]@.len() as int] == fwd) by {
                if fi == ti {
                    assert(na[fi]@[oa[fi]@.len() as int] == a1[fi]@[oa[fi]@.len() as int]);
                } else {
                    assert(na[fi] == a1[fi]);
                }
            }
            assert(na[ti]@[a1[ti]@.len() as int] == bwd);
            assert forall|u: int| 0 <= u < oa.len() implies oa[u]@.len() <= #[trigger] na[u]@.len() by {
                if u != fi && u != ti {
                    assert(na[u] == oa[u]);
                }
            }
            assert forall|u: int, j: int| 0 <= u < na.len() && 0 <= j < na[u]@.len() implies {
                &&& (#[trigger] na[u]@[j]).node_index < self.spec_nodes().len()
                &&& na[u]@[j].osm_id == self.spec_nodes()[na[u]@[j].node_index as int].spec_id()
                &&& has_back_entry(na, na[u]@[j].node_index as int, u, na[u]@[j].edge_data)
            } by {
                if j < oa[u]@.len() {
                    assert(na[u]@[j] == oa[u]@[j]);
                    let v = oa[u]@[j].node_index as int;
                    assert(has_back_entry(oa, v, u, oa[u]@[j].edge_data));
                    let j2 = choose|j2: int|
                        0 <= j2 < oa[v]@.len() && (#[trigger] oa[v]@[j2]).node_index == u
                            && oa[v]@[j2].edge_data == oa[u]@[j].edge_data;
                    assert(na[v]@[j2] == oa[v]@[j2]);
                } else if u == fi && j == oa[fi]@.len() {
                    assert(na[u]@[j] == fwd);
                    assert(na[ti]@[a1[ti]@.len() as int] == bwd);
                } else {
                    assert(u == ti);
                    assert(na[u]@[j] == bwd);
                    assert(na[fi]@[oa[fi]@.len() as int] == fwd);
                }
            }
        }
        Ok(())
    }

    /// Adds the edges of `way`: for each consecutive pair of its nodes, both
    /// are registered and joined by an undirected edge that carries the way's
    /// identifier and the pair's entry of `segment_lengths`.
    pub fn add_way(&mut self, way: &Way, segment_lengths: &Vec<u64>)
        requires
            old(self).wf(),
            way.nodes@.len() <= segment_lengths@.len() + 1,
        ensures
            final(self).wf(),
            grows(old(self).spec_adj(), final(self).spec_adj()),
            forall|id: u64| #[trigger]
                old(self).id_map().contains_key(id) ==> final(self).id_map().contains_key(id)
                    && final(self).id_map()[id] == old(self).id_map()[id],
            final(self).state() == way_added(
                old(self).state(),
                *way,
                segment_lengths@,
                if way.nodes@.len() >= 2 {
                    (way.nodes@.len() - 1) as nat
                } else {
                    0nat
                },
            ),
            way.nodes@.len() >= 2 ==> forall|t: int|
                0 <= t < way.nodes@.len() ==> final(self).id_map().contains_key(
                    (#[trigger] way.nodes@[t]).spec_id(),
                ),
            forall|t: int|
                0 <= t < way.nodes@.len() - 1 ==> #[trigger] joined(
                    final(self).spec_adj(),
                    final(self).id_map(),
                    way,
                    segment_lengths@,
                    t,
                ),
    {
        let n = way.nodes.len();
        if n < 2 {
            return ;
        }
        let mut i: usize = 0;
        while i + 1 < n
            invariant
                n == way.nodes@.len(),
                n >= 2,
                i + 1 <= n,
                n <= segment_lengths@.len() + 1,
                self.wf(),
                self.state() == way_added(old(self).state(), *way, segment_lengths@, i as nat),
                grows(old(self).spec_adj(), self.spec_adj()),
                forall|id: u64| #[trigger]
                    old(self).id_map().contains_key(id) ==> self.id_map().contains_key(id)
                        && self.id_map()[id] == old(self).id_map()[id],
                i > 0 ==> forall|t: int| 0 <= t <= i ==> self.id_map().contains_key(
                    (#[trigger] way.nodes@[t]).spec_id(),
                ),
                forall|t: int| 0 <= t < i ==> #[trigger] joined(
                    self.spec_adj(),
                    self.id_map(),
                    way,
                    segment_lengths@,
                    t,
                ),
            decreases n - i,
        {
            let ghost before = self.spec_adj();
            let ghost map0 = self.id_map();
            let from = way.nodes[i];
            let to = way.nodes[i + 1];
            self.add_node(from);
            let ghost a1 = self.spec_adj();
            self.add_node(to);
            let edge_data = EdgeData { way_id: way.id, length_mm: segment_lengths[i] };
            let ghost a2 = self.spec_adj();
            let ghost map2 = self.id_map();
            let res = self.add_edge_bidirectional(from.id(), to.id(), edge_data);
            proof {
                let a3 = self.spec_adj();
                lemma_grows_trans(before, a1, a2);
                lemma_grows_trans(before, a2, a3);
                lemma_grows_trans(old(self).spec_adj(), before, a3);
                assert forall|t: int| 0 <= t <= i + 1 implies self.id_map().contains_key(
                    (#[trigger] way.nodes@[t]).spec_id(),
                ) by {
                    if t < i {
                        assert(map0.contains_key(way.nodes@[t].spec_id()));
                    }
                }
                assert forall|t: int| 0 <= t < i + 1 implies #[trigger] joined(
                    self.spec_adj(),
                    self.id_map(),
                    way,
                    segment_lengths@,
                    t,
                ) by {
                    if t < i {
                        assert(joined(before, map0, way, segment_lengths@, t));
                        assert(map0.contains_key(way.nodes@[t].spec_id()));
                        assert(map0.contains_key(way.nodes@[t + 1].spec_id()));
                        lemma_grows_joined(before, a3, map0, self.id_map(), way, segment_lengths@, t);
                    } else {
                        let fi = map2[from.spec_id()] as int;
                        let ti = map2[to.spec_id()] as int;
                        let l = lists(a2);
                        assert(l.len() == a2.len());
                        let l1 = l.update(fi, l[fi].push(Neighbor { osm_id: to.spec_id(), node_index: ti as usize, edge_data }));
                        assert(lists(a3)[fi] == a3[fi]@);
                        assert(lists(a3)[ti] == a3[ti]@);
                        assert(a3[ti]@.last() == Neighbor { osm_id: from.spec_id(), node_index: fi as usize, edge_data });
                        assert(a3[ti]@.contains(Neighbor { osm_id: from.spec_id(), node_index: fi as usize, edge_data }));
                        if fi == ti {
                            assert(a3[fi]@[a3[fi]@.len() - 2] == Neighbor { osm_id: to.spec_id(), node_index: ti as usize, edge_data });
                        } else {
                            assert(a3[fi]@.last() == Neighbor { osm_id: to.spec_id(), node_index: ti as usize, edge_data });
                        }
                        assert(a3[fi]@.contains(Neighbor { osm_id: to.spec_id(), node_index: ti as usize, edge_data }));
                    }
                }
            }
            i += 1;
        }
    }

    /// Hands out the graph built so far.
    pub fn build(self) -> (r: Graph)
        requires
            self.wf(),
        ensures
            r.wf(),
            r.spec_nodes() == self.spec_nodes(),
            r.spec_adj() == self.spec_adj(),
            symmetric(r.spec_adj()),
            ids_consistent(r.spec_nodes(), r.spec_adj()),
    {
        Graph::new(self.nodes, self.adj)
    }
}

proof fn lemma_grows_trans(a: Seq<Vec<Neighbor>>, b: Seq<Vec<Neighbor>>, c: Seq<Vec<Neighbor>>)
    requires
        grows(a, b),
        grows(b, c),
    ensures
        grows(a, c),
{
    assert forall|u: int| 0 <= u < a.len() implies a[u]@.len() <= #[trigger] c[u]@.len() by {
        assert(a[u]@.len() <= b[u]@.len());
    }
    assert forall|u: int, j: int| 0 <= u < a.len() && 0 <= j < a[u]@.len() implies #[trigger] c[u]@[j]
        == a[u]@[j] by {
        assert(b[u]@[j] == a[u]@[j]);
        assert(a[u]@.len() <= b[u]@.len());
    }
}

proof fn lemma_grows_joined(
    a: Seq<Vec<Neighbor>>,
    b: Seq<Vec<Neighbor>>,
    m1: Map<u64, usize>,
    m2: Map<u64, usize>,
    way: &Way,
    lens: Seq<u64>,
    t: int,
)
    requires
        grows(a, b),
        forall|id: u64| #[trigger] m1.contains_key(id) ==> m2.contains_key(id) && m2[id] == m1[id],
        0 <= t < way.nodes@.len() - 1,
        m1.contains_key(way.nodes@[t].spec_id()),
        m1.contains_key(way.nodes@[t + 1].spec_id()),
        m1[way.nodes@[t].spec_id()] < a.len(),
        m1[way.nodes@[t + 1].spec_id()] < a.len(),
        joined(a, m1, way, lens, t),
    ensures
        joined(b, m2, way, lens, t),
{
    let x = way.nodes@[t].spec_id();
    let y = way.nodes@[t + 1].spec_id();
    let e = EdgeData { way_id: way.id, length_mm: lens[t] };
    let ix = m1[x] as int;
    let iy = m1[y] as int;
    assert(m2[x] == m1[x]);
    assert(m2[y] == m1[y]);
    let n1 = Neighbor { osm_id: y, node_index: m1[y], edge_data: e };
    let n2 = Neighbor { osm_id: x, node_index: m1[x], edge_data: e };
    let j1 = choose|j1: int| 0 <= j1 < a[ix]@.len() && a[ix]@[j1] == n1;
    let j2 = choose|j2: int| 0 <= j2 < a[iy]@.len() && a[iy]@[j2] == n2;
    assert(b[ix]@[j1] == n1);
    assert(b[iy]@[j2] == n2);
}

} // verus!
