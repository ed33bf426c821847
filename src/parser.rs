//! Resolving a way's node references against the known nodes.
use vstd::prelude::*;
use std::collections::HashMap;
use crate::model::{Node, Way};

verus! {

broadcast use vstd::std_specs::hash::group_hash_axioms;

/// The nodes that `refs` names, in order, skipping those that `m` lacks.
pub open spec fn resolve(refs: Seq<u64>, m: Map<u64, Node>) -> Seq<Node>
    decreases refs.len(),
{
    if refs.len() == 0 {
        Seq::empty()
    } else if m.contains_key(refs.last()) {
        resolve(refs.drop_last(), m).push(m[refs.last()])
    } else {
        resolve(refs.drop_last(), m)
    }
}

fn copy_ids(v: &Vec<u64>) -> (r: Vec<u64>)
    ensures
        r@ == v@,
{
    let mut out: Vec<u64> = Vec::new();
    let mut i: usize = 0;
    while i < v.len()
        invariant
            i <= v@.len(),
            out@ == v@.subrange(0, i as int),
        decreases v@.len() - i,
    {
        out.push(v[i]);
        i += 1;
    }
    assert(out@ =~= v@);
    out
}

/// For each way, a copy whose node list is extended by the nodes that its
/// references name, in order; references that `nodes` lacks are skipped.
pub fn get_nodes_on_ways(nodes: HashMap<u64, Node>, ways: &[Way]) -> (r: Vec<Way>)
    ensures
        r@.len() == ways@.len(),
        forall|i: int|
            0 <= i < ways@.len() ==> {
                &&& (#[trigger] r@[i]).id == ways@[i].id
                &&& r@[i].node_refs@ == ways@[i].node_refs@
                &&& r@[i].nodes@ == ways@[i].nodes@ + resolve(ways@[i].node_refs@, nodes@)
            },
{
    let mut out: Vec<Way> = Vec::new();
    let mut w: usize = 0;
    while w < ways.len()
        invariant
            w <= ways@.len(),
            out@.len() == w,
            forall|i: int|
                0 <= i < w ==> {
                    &&& (#[trigger] out@[i]).id == ways@[i].id
                    &&& out@[i].node_refs@ == ways@[i].node_refs@
                    &&& out@[i].nodes@ == ways@[i].nodes@ + resolve(ways@[i].node_refs@, nodes@)
                },
        decreases ways@.len() - w,
    {
        let way = &ways[w];
        let refs = copy_ids(&way.node_refs);
        let mut resolved = way.nodes();
        let mut t: usize = 0;
        while t < refs.len()
            invariant
                t <= refs@.len(),
                refs@ == way.node_refs@,
                resolved@ == way.nodes@ + resolve(refs@.subrange(0, t as int), nodes@),
            decreases refs@.len() - t,
        {
            proof {
                assert(refs@.subrange(0, t + 1).drop_last() =~= refs@.subrange(0, t as int));
            }
            match nodes.get(&refs[t]) {
                Some(node) => {
                    resolved.push(*node);
                    proof {
                        assert(resolved@ =~= way.nodes@ + resolve(refs@.subrange(0, t + 1), nodes@));
                    }
                },
                None => {},
            }
            t += 1;
        }
        assert(refs@.subrange(0, refs@.len() as int) =~= refs@);
        out.push(Way { id: way.id, nodes: resolved, node_refs: refs });
        w += 1;
    }
    out
}

} // verus!
