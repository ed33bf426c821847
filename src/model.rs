//! Plain records: nodes, edges, ways and the routes handed to callers.
use vstd::prelude::*;

verus! {

#[verifier::external_type_specification]
#[verifier::external_body]
pub struct ExUuid(uuid::Uuid);

/// Relies on uuid's `Uuid::new_v4`: a fresh random identifier. Nothing is
/// promised of its value.
pub assume_specification[ uuid::Uuid::new_v4 ]() -> (r: uuid::Uuid);

/// A map node: its identifier in the source data and its position, latitude
/// and longitude in units of 1e-7 degrees.
#[derive(Debug, Clone, Copy, PartialEq, Eq)]
pub struct Node {
    id: u64,
    lat: i64,
    lon: i64,
}

impl Node {
    pub fn new(id: u64, lat: i64, lon: i64) -> (r: Self)
        ensures
            r.spec_id() == id,
            r.spec_lat() == lat,
            r.spec_lon() == lon,
    {
        Node { id, lat, lon }
    }

    pub fn id(&self) -> (r: u64)
        ensures
            r == self.spec_id(),
    {
        self.id
    }

    pub fn lat(&self) -> (r: i64)
        ensures
            r == self.spec_lat(),
    {
        self.lat
    }

    pub fn lon(&self) -> (r: i64)
        ensures
            r == self.spec_lon(),
    {
        self.lon
    }

    pub closed spec fn spec_id(&self) -> u64 {
        self.id
    }

    pub closed spec fn spec_lat(&self) -> i64 {
        self.lat
    }

    pub closed spec fn spec_lon(&self) -> i64 {
        self.lon
    }
}

/// What an adjacency entry carries: the way it came from and its length in
/// millimetres.
#[derive(Debug, Clone, Copy, PartialEq, Eq)]
pub struct EdgeData {
    pub way_id: u64,
    pub length_mm: u64,
}

/// One adjacency entry: the neighbour's source identifier, its dense index,
/// and the edge leading to it.
#[derive(Debug, Clone, Copy, PartialEq, Eq)]
pub struct Neighbor {
    pub osm_id: u64,
    pub node_index: usize,
    pub edge_data: EdgeData,
}

/// A way of the source data: its identifier, the identifiers of its nodes in
/// order, and the nodes themselves once they have been resolved.
#[derive(Debug)]
pub struct Way {
    pub id: u64,
    pub nodes: Vec<Node>,
    pub node_refs: Vec<u64>,
}

impl Way {
    pub fn new(id: u64, node_refs: Vec<u64>, nodes: Vec<Node>) -> (r: Self)
        ensures
            r.id == id,
            r.node_refs@ == node_refs@,
            r.nodes@ == nodes@,
    {
        Way { id, node_refs, nodes }
    }

    pub fn id(&self) -> (r: u64)
        ensures
            r == self.id,
    {
        self.id
    }

    pub fn node_refs(&self) -> (r: Vec<u64>)
        ensures
            r@ == self.node_refs@,
    {
        self.node_refs.clone()
    }

    pub fn nodes(&self) -> (r: Vec<Node>)
        ensures
            r@ == self.nodes@,
    {
        let mut out: Vec<Node> = Vec::new();
        let mut i: usize = 0;
        while i < self.nodes.len()
            invariant
                i <= self.nodes@.len(),
                out@ == self.nodes@.subrange(0, i as int),
            decreases self.nodes@.len() - i,
        {
            out.push(self.nodes[i]);
            i += 1;
        }
        assert(out@ =~= self.nodes@);
        out
    }
}

/// A route handed to callers: a fresh identifier, its length in millimetres
/// and its nodes from origin to destination.
#[derive(Debug)]
pub struct Path {
    pub id: uuid::Uuid,
    pub distance: u64,
    pub nodes: Vec<Node>,
}

impl Path {
    pub fn new(nodes: Vec<Node>, distance: u64) -> (r: Path)
        ensures
            r.nodes@ == nodes@,
            r.distance == distance,
    {
        Path { id: uuid::Uuid::new_v4(), distance, nodes }
    }
}

} // verus!
