//! The hybrid search: an exact reverse pass from the goal, then randomized
//! outbound walks stitched to the way home.
use vstd::prelude::*;
use rand::seq::SliceRandom;
use crate::graph::Graph;
use crate::builder::symmetric;
use crate::reach::{count_false, lemma_count_false_update};
use crate::search::{in_window, prefix_len};

verus! {

#[verifier::external_type_specification]
#[verifier::external_body]
pub struct ExThreadRng(rand::rngs::ThreadRng);

/// Relies on rand's `rng`: a handle on the thread's random number generator.
pub assume_specification[ rand::rng ]() -> rand::rngs::ThreadRng;

/// Relies on rand's `SliceRandom::shuffle`: it permutes the slice in place,
/// so the same values remain, each as often as before.
#[verifier::external_body]
fn shuffle_slots(v: &mut Vec<usize>, rng: &mut rand::rngs::ThreadRng)
    ensures
        final(v)@.to_multiset() == old(v)@.to_multiset(),
{
    v.shuffle(rng);
}

/// What the reverse pass hands on: for each node with a known distance to
/// `goal` (other than `goal` itself, at distance zero), a predecessor with a
/// known distance and an entry from the node to it that closes the gap.
pub open spec fn residuals_ok(g: Graph, goal: int, dist: Seq<Option<u64>>, parent: Seq<Option<usize>>) -> bool {
    &&& dist.len() == g.node_count()
    &&& parent.len() == g.node_count()
    &&& 0 <= goal < g.node_count()
    &&& dist[goal] == Some(0u64)
    &&& forall|v: int|
        0 <= v < g.node_count() && v != goal && (#[trigger] dist[v]) is Some ==> step_home(g, dist, parent, v)
    &&& exists|rank: Seq<nat>| #[trigger] ranked(parent, rank)
}

/// Following `parent` always leads to a node of lower rank, so it ends.
pub open spec fn ranked(parent: Seq<Option<usize>>, rank: Seq<nat>) -> bool {
    &&& rank.len() == parent.len()
    &&& forall|v: int|
        0 <= v < parent.len() && (#[trigger] parent[v]) is Some ==> parent[v]->0 < parent.len()
            && rank[parent[v]->0 as int] < rank[v]
}

/// Node `v` has a predecessor `u` with a known distance and an entry from
/// `v` to `u` whose length added to `u`'s distance does not exceed `v`'s.
pub open spec fn step_home(g: Graph, dist: Seq<Option<u64>>, parent: Seq<Option<usize>>, v: int) -> bool {
    &&& parent[v] is Some
    &&& parent[v]->0 < g.node_count()
    &&& dist[parent[v]->0 as int] is Some
    &&& exists|j: int|
        0 <= j < g.degree(v) && (#[trigger] g.entry(v, j)).node_index == parent[v]->0
            && dist[parent[v]->0 as int]->0 + g.entry(v, j).edge_data.length_mm <= dist[v]->0
}

/// What the reverse pass from `goal` guarantees of its result: the
/// predecessor data of `residuals_ok`, and for every walk from `goal` whose
/// length is within the cutoff, a known distance for its last node that is
/// no larger than that length.
pub open spec fn reverse_pass_ok(
    g: Graph,
    goal: int,
    cutoff: Option<u64>,
    dist: Seq<Option<u64>>,
    parent: Seq<Option<usize>>,
) -> bool {
    &&& residuals_ok(g, goal, dist, parent)
    &&& forall|p: Seq<usize>, slots: Seq<usize>|
        #![trigger g.follows(p, slots)]
        g.follows(p, slots) && p[0] == goal && under(cutoff, g.length_along(p, slots))
            && g.length_along(p, slots) <= u64::MAX ==> {
            &&& dist[p.last() as int] is Some
            &&& dist[p.last() as int]->0 <= g.length_along(p, slots)
        }
}

/// Every entry of node `v`, whose distance is `x`, leads to a node whose
/// distance is at most `x` plus the entry's length (or that sum overflows).
pub open spec fn relaxed(g: Graph, dist: Seq<Option<u64>>, v: int, x: u64) -> bool {
    forall|j: int|
        0 <= j < g.degree(v) ==> x + (#[trigger] g.entry(v, j)).edge_data.length_mm > u64::MAX || (
        dist[g.entry(v, j).node_index as int] is Some && dist[g.entry(v, j).node_index as int]->0 <= x
            + g.entry(v, j).edge_data.length_mm)
}

/// `d` is within the cutoff (there is none, or `d` does not exceed it).
pub open spec fn under(cutoff: Option<u64>, d: int) -> bool {
    match cutoff {
        Some(c) => d <= c,
        None => true,
    }
}

/// Every node whose distance is known and within the cutoff has been
/// relaxed.
pub open spec fn settled(g: Graph, dist: Seq<Option<u64>>, cutoff: Option<u64>) -> bool {
    forall|v: int|
        0 <= v < g.node_count() && (#[trigger] dist[v]) is Some && under(cutoff, dist[v]->0 as int)
            ==> relaxed(g, dist, v, dist[v]->0)
}

/// The frontier holds an entry for node `v` at distance `x`.
spec fn queued(heap: Seq<BasicState>, v: int, x: u64) -> bool {
    exists|t: int| 0 <= t < heap.len() && (#[trigger] heap[t]).node == v && heap[t].dist == x
}

/// Along a walk from a node at distance zero, through relaxed nodes, each
/// node's distance is at most the walk's length up to it.
proof fn lemma_walk_distances(
    g: Graph,
    dist: Seq<Option<u64>>,
    cutoff: Option<u64>,
    p: Seq<usize>,
    slots: Seq<usize>,
    t: int,
)
    requires
        g.wf(),
        dist.len() == g.node_count(),
        settled(g, dist, cutoff),
        g.follows(p, slots),
        dist[p[0] as int] == Some(0u64),
        under(cutoff, g.length_along(p, slots)),
        g.length_along(p, slots) <= u64::MAX,
        0 <= t < p.len(),
    ensures
        dist[p[t] as int] is Some,
        dist[p[t] as int]->0 <= g.length_along(p.subrange(0, t + 1), slots.subrange(0, t)),
    decreases t,
{
    if t > 0 {
        lemma_walk_distances(g, dist, cutoff, p, slots, t - 1);
        let pp = p.subrange(0, t + 1);
        let ss = slots.subrange(0, t);
        assert(pp.drop_last() =~= p.subrange(0, t));
        assert(ss.drop_last() =~= slots.subrange(0, t - 1));
        lemma_prefix_le(g, p, slots, t);
        g.lemma_follows_at(p, slots, t - 1);
        let u = p[t - 1] as int;
        let x = dist[u]->0;
        assert(relaxed(g, dist, u, x));
        assert(g.entry(u, slots[t - 1] as int).node_index == p[t]);
    }
}

/// Lengths of prefixes never exceed the length of the whole walk.
proof fn lemma_prefix_le(g: Graph, p: Seq<usize>, slots: Seq<usize>, t: int)
    requires
        g.follows(p, slots),
        0 <= t < p.len(),
    ensures
        g.length_along(p.subrange(0, t + 1), slots.subrange(0, t)) <= g.length_along(p, slots),
    decreases p.len() - t,
{
    if t < p.len() - 1 {
        lemma_prefix_le(g, p, slots, t + 1);
        let pp = p.subrange(0, t + 2);
        let ss = slots.subrange(0, t + 1);
        assert(pp.drop_last() =~= p.subrange(0, t + 1));
        assert(ss.drop_last() =~= slots.subrange(0, t));
    } else {
        assert(p.subrange(0, t + 1) =~= p);
        assert(slots.subrange(0, t) =~= slots);
    }
}

/// Each node with a predecessor has the distance of that predecessor, which
/// lies within the cutoff, plus the length of an entry from the predecessor
/// to it.
pub open spec fn parents_exact(g: Graph, dist: Seq<Option<u64>>, parent: Seq<Option<usize>>, cutoff: Option<u64>) -> bool {
    forall|w: int|
        0 <= w < g.node_count() && (#[trigger] parent[w]) is Some ==> {
            let u = parent[w]->0 as int;
            &&& dist[u] is Some
            &&& under(cutoff, dist[u]->0 as int)
            &&& dist[w] is Some
            &&& exists|j: int|
                0 <= j < g.degree(u) && (#[trigger] g.entry(u, j)).node_index == w && dist[w]->0 == dist[u]->0
                    + g.entry(u, j).edge_data.length_mm
        }
}

/// The sum of all known distances, an unknown one counting one more than
/// the largest known.
pub open spec fn potential(dist: Seq<Option<u64>>) -> nat
    decreases dist.len(),
{
    if dist.len() == 0 {
        0
    } else {
        potential(dist.drop_last()) + match dist.last() {
            Some(d) => d as nat,
            None => u64::MAX as nat + 1,
        }
    }
}

proof fn lemma_potential_lower(dist: Seq<Option<u64>>, i: int, d: u64)
    requires
        0 <= i < dist.len(),
        match dist[i] {
            Some(x) => d < x,
            None => true,
        },
    ensures
        potential(dist.update(i, Some(d))) < potential(dist),
    decreases dist.len(),
{
    let d2 = dist.update(i, Some(d));
    if i == dist.len() - 1 {
        assert(d2.drop_last() =~= dist.drop_last());
    } else {
        assert(d2.drop_last() =~= dist.drop_last().update(i, Some(d)));
        lemma_potential_lower(dist.drop_last(), i, d);
    }
}

/// A frontier entry of the reverse pass: a node and a distance found for it.
#[derive(Debug, Clone, Copy, PartialEq, Eq)]
struct BasicState {
    node: usize,
    dist: u64,
}

/// Takes out the first frontier entry of least distance.
fn pop_nearest(heap: &mut Vec<BasicState>) -> (r: BasicState)
    requires
        old(heap)@.len() > 0,
    ensures
        exists|i: int| 0 <= i < old(heap)@.len() && r == old(heap)@[i] && final(heap)@ == old(heap)@.remove(i),
        forall|t: int| 0 <= t < old(heap)@.len() ==> r.dist <= (#[trigger] old(heap)@[t]).dist,
{
    let mut best: usize = 0;
    let mut i: usize = 1;
    while i < heap.len()
        invariant
            heap@ == old(heap)@,
            1 <= i <= heap@.len(),
            best < i,
            forall|t: int| 0 <= t < i ==> heap@[best as int].dist <= (#[trigger] heap@[t]).dist,
        decreases heap@.len() - i,
    {
        if heap[i].dist < heap[best].dist {
            best = i;
        }
        i += 1;
    }
    heap.remove(best)
}

/// Copies a vector of indices.
fn copy_indices(v: &Vec<usize>) -> (r: Vec<usize>)
    ensures
        r@ == v@,
{
    let mut out: Vec<usize> = Vec::new();
    let mut i: usize = 0;
    while i < v.len()
        invariant
            i <= v@.len(),
            out@ == v@.subrange(0, i as int),
        decreases v@.len() - i,
    {
        out.push(v[i]);
        i += 1;
    }
    assert(out@ =~= v@);
    out
}

/// Whether `a + b` lies within `tol` of `target`, where `a` is at most
/// `target + tol`.
fn sum_within(a: u64, b: u64, target: u64, tol: u64) -> (r: bool)
    requires
        target + tol <= u64::MAX,
        a <= target + tol,
    ensures
        r == in_window(a + b, target as int, tol as int),
{
    let limit = target + tol;
    if b > limit - a {
        false
    } else {
        let s = a + b;
        if s >= target {
            s - target <= tol
        } else {
            target - s <= tol
        }
    }
}

/// `ext` leads on from its first node to a midpoint of the hybrid search:
/// each later node is unvisited and appears once, after each step the
/// length so far plus the node's known distance to the goal stays within
/// `target + tol`, and the last node, other than `start`, completes a length
/// within `tol` of `target`. `traversed` is the length before `ext`.
pub open spec fn leads_to_midpoint(
    g: Graph,
    d_goal: Seq<Option<u64>>,
    visited: Seq<bool>,
    start: int,
    target: int,
    tol: int,
    traversed: int,
    ext: Seq<usize>,
    slots: Seq<usize>,
) -> bool {
    &&& g.follows(ext, slots)
    &&& forall|t: int| 1 <= t < ext.len() ==> !visited[#[trigger] ext[t] as int]
    &&& forall|t1: int, t2: int| 1 <= t1 < t2 < ext.len() ==> #[trigger] ext[t1] != #[trigger] ext[t2]
    &&& forall|t: int|
        1 <= t < ext.len() ==> {
            &&& traversed + #[trigger] prefix_len(g, ext, slots, t) <= target + tol
            &&& d_goal[ext[t] as int] is Some
            &&& traversed + prefix_len(g, ext, slots, t) + d_goal[ext[t] as int]->0 <= target + tol
        }
    &&& ext.last() != start
    &&& d_goal[ext.last() as int] is Some
    &&& in_window(
        traversed + prefix_len(g, ext, slots, ext.len() - 1) + d_goal[ext.last() as int]->0,
        target,
        tol,
    )
}

/// Only `start` is marked, among `n` nodes.
pub open spec fn only_start(n: nat, start: int) -> Seq<bool> {
    Seq::new(n, |v: int| v == start)
}

/// No walk that starts along entry `j` of `node` leads to a midpoint.
pub open spec fn blocked(
    g: Graph,
    d_goal: Seq<Option<u64>>,
    visited: Seq<bool>,
    start: int,
    target: int,
    tol: int,
    traversed: int,
    node: int,
    j: int,
) -> bool {
    forall|ext: Seq<usize>, slots: Seq<usize>|
        ext.len() >= 2 && ext[0] == node && slots[0] == j ==> !#[trigger] leads_to_midpoint(
            g,
            d_goal,
            visited,
            start,
            target,
            tol,
            traversed,
            ext,
            slots,
        )
}

/// The length along a walk is its first entry's length plus the length
/// along the rest.
proof fn lemma_length_drop_first(g: Graph, p: Seq<usize>, slots: Seq<usize>)
    requires
        p.len() == slots.len() + 1,
        slots.len() >= 1,
    ensures
        g.length_along(p, slots) == g.entry(p[0] as int, slots[0] as int).edge_data.length_mm
            + g.length_along(p.drop_first(), slots.drop_first()),
    decreases slots.len(),
{
    if slots.len() == 1 {
        assert(p.drop_last().drop_first().len() == 0);
        assert(slots.drop_first().len() == 0);
        assert(g.length_along(p.drop_last(), slots.drop_last()) == 0);
    } else {
        lemma_length_drop_first(g, p.drop_last(), slots.drop_last());
        assert(p.drop_last().drop_first() =~= p.drop_first().drop_last());
        assert(slots.drop_last().drop_first() =~= slots.drop_first().drop_last());
        assert(p.drop_first()[slots.drop_first().len() - 1] == p[slots.len() - 1]);
    }
}

/// A walk to a midpoint, less its first node, leads on from its second.
proof fn lemma_midpoint_drop_first(
    g: Graph,
    d_goal: Seq<Option<u64>>,
    visited: Seq<bool>,
    start: int,
    target: int,
    tol: int,
    traversed: int,
    ext: Seq<usize>,
    slots: Seq<usize>,
)
    requires
        leads_to_midpoint(g, d_goal, visited, start, target, tol, traversed, ext, slots),
        ext.len() >= 2,
        g.wf(),
        visited.len() == g.node_count(),
    ensures
        leads_to_midpoint(
            g,
            d_goal,
            visited.update(ext[1] as int, true),
            start,
            target,
            tol,
            traversed + g.entry(ext[0] as int, slots[0] as int).edge_data.length_mm,
            ext.drop_first(),
            slots.drop_first(),
        ),
{
    let len = g.entry(ext[0] as int, slots[0] as int).edge_data.length_mm;
    let e2 = ext.drop_first();
    let s2 = slots.drop_first();
    let v2 = visited.update(ext[1] as int, true);
    assert forall|t: int| 0 <= t < e2.len() implies prefix_len(g, ext, slots, t + 1) == len + prefix_len(g, e2, s2, t) by {
        let pp = ext.subrange(0, t + 2);
        let ss = slots.subrange(0, t + 1);
        lemma_length_drop_first(g, pp, ss);
        assert(pp.drop_first() =~= e2.subrange(0, t + 1));
        assert(ss.drop_first() =~= s2.subrange(0, t));
    }
    assert(g.follows(e2, s2)) by {
        g.lemma_follows_at(ext, slots, 1);
        assert forall|t: int| 0 <= t < s2.len() implies #[trigger] s2[t] < g.degree(e2[t] as int) && g.entry(
            e2[t] as int,
            s2[t] as int,
        ).node_index == e2[t + 1] by {
            assert(s2[t] == slots[t + 1]);
        }
    }
    g.lemma_follows_in_range(ext, slots);
    assert forall|t: int| 1 <= t < e2.len() implies !v2[#[trigger] e2[t] as int] by {
        assert(e2[t] == ext[t + 1]);
        assert(ext[1] != ext[t + 1]);
        assert(!visited[ext[t + 1] as int]);
    }
    assert forall|t1: int, t2: int| 1 <= t1 < t2 < e2.len() implies #[trigger] e2[t1] != #[trigger] e2[t2] by {
        assert(ext[t1 + 1] != ext[t2 + 1]);
    }
    assert forall|t: int| 1 <= t < e2.len() implies {
        &&& traversed + len + #[trigger] prefix_len(g, e2, s2, t) <= target + tol
        &&& d_goal[e2[t] as int] is Some
        &&& traversed + len + prefix_len(g, e2, s2, t) + d_goal[e2[t] as int]->0 <= target + tol
    } by {
        assert(e2[t] == ext[t + 1]);
        assert(prefix_len(g, ext, slots, t + 1) == len + prefix_len(g, e2, s2, t));
    }
    assert(prefix_len(g, ext, slots, e2.len() as int) == len + prefix_len(g, e2, s2, e2.len() - 1));
    assert(e2.last() == ext.last());
}

/// A walk to a midpoint from the neighbour `v` of `node`, with `v` marked,
/// leads on from `node` along the entry to `v`.
proof fn lemma_midpoint_prepend(
    g: Graph,
    d_goal: Seq<Option<u64>>,
    visited: Seq<bool>,
    start: int,
    target: int,
    tol: int,
    traversed: int,
    node: usize,
    slot: usize,
    ext: Seq<usize>,
    es: Seq<usize>,
)
    requires
        g.wf(),
        visited.len() == g.node_count(),
        node < g.node_count(),
        visited[node as int],
        slot < g.degree(node as int),
        ext.len() >= 1,
        ext[0] == g.entry(node as int, slot as int).node_index,
        !visited[ext[0] as int],
        traversed + g.entry(node as int, slot as int).edge_data.length_mm <= target + tol,
        d_goal[ext[0] as int] is Some,
        traversed + g.entry(node as int, slot as int).edge_data.length_mm + d_goal[ext[0] as int]->0 <= target
            + tol,
        leads_to_midpoint(
            g,
            d_goal,
            visited.update(ext[0] as int, true),
            start,
            target,
            tol,
            traversed + g.entry(node as int, slot as int).edge_data.length_mm,
            ext,
            es,
        ),
    ensures
        leads_to_midpoint(g, d_goal, visited, start, target, tol, traversed, seq![node] + ext, seq![slot] + es),
        prefix_len(g, seq![node] + ext, seq![slot] + es, es.len() as int + 1) == g.entry(node as int, slot as int).edge_data.length_mm
            + prefix_len(g, ext, es, es.len() as int),
{
    let len = g.entry(node as int, slot as int).edge_data.length_mm;
    let e2 = seq![node] + ext;
    let s2 = seq![slot] + es;
    let v = ext[0];
    let vis2 = visited.update(v as int, true);
    assert(e2.drop_first() =~= ext);
    assert(s2.drop_first() =~= es);
    g.lemma_follows_in_range(ext, es);
    assert forall|t: int| 0 <= t < ext.len() implies prefix_len(g, e2, s2, t + 1) == len + prefix_len(g, ext, es, t) by {
        let pp = e2.subrange(0, t + 2);
        let ss = s2.subrange(0, t + 1);
        lemma_length_drop_first(g, pp, ss);
        assert(pp.drop_first() =~= ext.subrange(0, t + 1));
        assert(ss.drop_first() =~= es.subrange(0, t));
        assert(pp[0] == node && ss[0] == slot);
    }
    assert(g.follows(e2, s2)) by {
        assert forall|t: int| 0 <= t < s2.len() implies #[trigger] s2[t] < g.degree(e2[t] as int) && g.entry(
            e2[t] as int,
            s2[t] as int,
        ).node_index == e2[t + 1] by {
            if t > 0 {
                assert(s2[t] == es[t - 1]);
                assert(e2[t] == ext[t - 1]);
                assert(e2[t + 1] == ext[t]);
            }
        }
    }
    assert forall|t: int| 1 <= t < e2.len() implies !visited[#[trigger] e2[t] as int] by {
        assert(e2[t] == ext[t - 1]);
        if t > 1 {
            assert(!vis2[ext[t - 1] as int]);
        }
    }
    assert forall|t1: int, t2: int| 1 <= t1 < t2 < e2.len() implies #[trigger] e2[t1] != #[trigger] e2[t2] by {
        assert(e2[t1] == ext[t1 - 1]);
        assert(e2[t2] == ext[t2 - 1]);
        if t1 == 1 {
            assert(!vis2[ext[t2 - 1] as int]);
        }
    }
    assert forall|t: int| 1 <= t < e2.len() implies {
        &&& traversed + #[trigger] prefix_len(g, e2, s2, t) <= target + tol
        &&& d_goal[e2[t] as int] is Some
        &&& traversed + prefix_len(g, e2, s2, t) + d_goal[e2[t] as int]->0 <= target + tol
    } by {
        assert(e2[t] == ext[t - 1]);
        assert(prefix_len(g, e2, s2, t) == len + prefix_len(g, ext, es, t - 1));
        if t == 1 {
            assert(ext.subrange(0, 1).drop_last().len() == 0);
            assert(prefix_len(g, ext, es, 0) == 0);
        }
    }
    assert(e2.last() == ext.last());
}

/// `home` follows `parent` from its first node to `goal`, which it reaches
/// only at its end.
pub open spec fn parent_chain(parent: Seq<Option<usize>>, home: Seq<usize>, goal: int) -> bool {
    &&& home.len() >= 1
    &&& home.last() == goal
    &&& forall|t: int|
        0 <= t < home.len() - 1 ==> #[trigger] home[t] != goal && parent[home[t] as int] == Some(home[t + 1])
}

/// `p` is the outbound walk `out` (entries `es`, a walk from `start` to a
/// midpoint with only `start` marked) followed by the way home `home` from
/// the midpoint by `parent`, and `d` is the outbound length plus the
/// midpoint's distance.
pub open spec fn stitched(
    g: Graph,
    d_goal: Seq<Option<u64>>,
    parent: Seq<Option<usize>>,
    start: int,
    goal: int,
    target: int,
    tol: int,
    p: Seq<usize>,
    d: int,
    out: Seq<usize>,
    es: Seq<usize>,
    home: Seq<usize>,
) -> bool {
    &&& out.len() >= 1
    &&& out[0] == start
    &&& leads_to_midpoint(g, d_goal, only_start(g.node_count() as nat, start), start, target, tol, 0, out, es)
    &&& parent_chain(parent, home, goal)
    &&& home[0] == out.last()
    &&& p == out + home.drop_first()
    &&& d == prefix_len(g, out, es, es.len() as int) + d_goal[out.last() as int]->0
}

/// A result of the hybrid search: some outbound walk stitched to its way
/// home (see `stitched`).
pub open spec fn stitched_route(
    g: Graph,
    d_goal: Seq<Option<u64>>,
    parent: Seq<Option<usize>>,
    start: int,
    goal: int,
    target: int,
    tol: int,
    p: Seq<usize>,
    d: int,
) -> bool {
    exists|out: Seq<usize>, es: Seq<usize>, home: Seq<usize>|
        #[trigger] stitched(g, d_goal, parent, start, goal, target, tol, p, d, out, es, home)
}

/// `p` leads from `start` to `goal` through `g`, can be taken with a length
/// of at most `d`, and `d` lies within `tol` of `target`.
pub open spec fn hybrid_route(
    g: Graph,
    p: Seq<usize>,
    d: int,
    start: int,
    goal: int,
    target: int,
    tol: int,
) -> bool {
    &&& p.len() >= 1
    &&& p[0] == start
    &&& p.last() == goal
    &&& exists|d2: int| d2 <= d && #[trigger] g.is_route(p, d2)
    &&& in_window(d, target, tol)
}

impl Graph {
    /// A walk whose first step already fails a condition of
    /// `leads_to_midpoint` does not lead to a midpoint.
    proof fn lemma_first_step_blocked(
        &self,
        d_goal: Seq<Option<u64>>,
        visited: Seq<bool>,
        start: int,
        target: int,
        tol: int,
        traversed: int,
        node: int,
        j: int,
    )
        requires
            self.wf(),
            0 <= node < self.node_count(),
            0 <= j < self.degree(node),
            ({
                let e = self.entry(node, j);
                ||| visited[e.node_index as int]
                ||| traversed + e.edge_data.length_mm > target + tol
                ||| d_goal[e.node_index as int] is None
                ||| traversed + e.edge_data.length_mm + d_goal[e.node_index as int]->0 > target + tol
            }),
        ensures
            blocked(*self, d_goal, visited, start, target, tol, traversed, node, j),
    {
        assert forall|ext: Seq<usize>, es: Seq<usize>|
            ext.len() >= 2 && ext[0] == node && es[0] == j implies !#[trigger] leads_to_midpoint(
                *self,
                d_goal,
                visited,
                start,
                target,
                tol,
                traversed,
                ext,
                es,
            ) by {
            if leads_to_midpoint(*self, d_goal, visited, start, target, tol, traversed, ext, es) {
                assert(es[0] < self.degree(ext[0] as int));
                assert(self.entry(ext[0] as int, es[0] as int).node_index == ext[1]);
                let pp = ext.subrange(0, 2);
                let ss = es.subrange(0, 1);
                assert(pp.drop_last() =~= seq![ext[0]]);
                assert(ss.drop_last() =~= Seq::<usize>::empty());
                assert(self.length_along(seq![ext[0]], Seq::<usize>::empty()) == 0);
                assert(prefix_len(*self, ext, es, 1) == self.entry(node, j).edge_data.length_mm);
                assert(!visited[ext[1] as int]);
                assert(traversed + prefix_len(*self, ext, es, 1) <= target + tol);
            }
        }
    }

    /// Randomized depth-first walk from the end of `path` (which starts at
    /// `start` and has length `traversed`), over nodes not yet `visited`, in a
    /// freshly shuffled neighbour order at each node. It stops at the first
    /// node other than `start` from which the known distance to the goal
    /// completes a length within `tol` of `target`, and returns the walk up
    /// to there with its length. `path` and `visited` come back unchanged.
    fn recursive_dfs(
        &self,
        node: usize,
        traversed: u64,
        start: usize,
        d_goal: &Vec<Option<u64>>,
        target: u64,
        tol: u64,
        rng: &mut rand::rngs::ThreadRng,
        path: &mut Vec<usize>,
        visited: &mut Vec<bool>,
        slots: Ghost<Seq<usize>>,
    ) -> (r: Option<(Vec<usize>, u64)>)
        requires
            self.wf(),
            d_goal@.len() == self.node_count(),
            old(visited)@.len() == self.node_count(),
            old(visited)@[node as int],
            target + tol <= u64::MAX,
            traversed <= target + tol,
            node < self.node_count(),
            old(path)@.len() >= 1,
            old(path)@[0] == start,
            old(path)@.last() == node,
            self.follows(old(path)@, slots@),
            self.length_along(old(path)@, slots@) == traversed,
        ensures
            final(path)@ == old(path)@,
            final(visited)@ == old(visited)@,
            r matches Some(res) ==> {
                &&& res.0@.len() >= 1
                &&& res.0@[0] == start
                &&& res.0@.last() != start
                &&& res.0@.last() < self.node_count()
                &&& self.is_route(res.0@, res.1 as int)
                &&& d_goal@[res.0@.last() as int] is Some
                &&& in_window(
                    res.1 + d_goal@[res.0@.last() as int]->0,
                    target as int,
                    tol as int,
                )
                &&& res.0@.len() >= old(path)@.len()
                &&& res.0@.subrange(0, old(path)@.len() as int) == old(path)@
                &&& exists|es: Seq<usize>|
                    #[trigger] leads_to_midpoint(
                        *self,
                        d_goal@,
                        old(visited)@,
                        start as int,
                        target as int,
                        tol as int,
                        traversed as int,
                        res.0@.subrange(old(path)@.len() - 1, res.0@.len() as int),
                        es,
                    ) && res.1 == traversed + prefix_len(
                        *self,
                        res.0@.subrange(old(path)@.len() - 1, res.0@.len() as int),
                        es,
                        es.len() as int,
                    )
            },
            r is None ==> forall|ext: Seq<usize>, ext_slots: Seq<usize>|
                ext.len() >= 1 && ext[0] == node ==> !#[trigger] leads_to_midpoint(
                    *self,
                    d_goal@,
                    old(visited)@,
                    start as int,
                    target as int,
                    tol as int,
                    traversed as int,
                    ext,
                    ext_slots,
                ),
        decreases count_false(old(visited)@),
    {
        let ghost here_mid = node != start && d_goal@[node as int] is Some && in_window(
            traversed + d_goal@[node as int]->0,
            target as int,
            tol as int,
        );
        if node != start {
            if let Some(dg) = d_goal[node] {
                if sum_within(traversed, dg, target, tol) {
                    let found = copy_indices(path);
                    proof {
                        assert(self.is_route(path@, traversed as int));
                        let l = path@.len() as int;
                        let ext = found@.subrange(l - 1, l);
                        assert(ext =~= seq![node]);
                        assert(found@.subrange(0, l) =~= path@);
                        assert(self.follows(ext, Seq::<usize>::empty()));
                        assert(ext.subrange(0, 1) =~= ext);
                        assert(prefix_len(*self, ext, Seq::<usize>::empty(), 0) == 0);
                        assert(leads_to_midpoint(*self, d_goal@, visited@, start as int, target as int, tol as int, traversed as int, ext, Seq::<usize>::empty()));
                    }
                    return Some((found, traversed));
                }
            }
        }
        let limit = target + tol;
        let deg = self.adj()[node].len();
        let mut order: Vec<usize> = Vec::new();
        let mut i: usize = 0;
        while i < deg
            invariant
                i <= deg,
                order@.len() == i,
                forall|t: int| 0 <= t < i ==> #[trigger] order@[t] == t,
            decreases deg - i,
        {
            order.push(i);
            i += 1;
        }
        let ghost plain = order@;
        shuffle_slots(&mut order, rng);
        proof {
            assert(plain.len() == deg);
        }
        proof {
            assert forall|t: int| 0 <= t < order@.len() implies #[trigger] order@[t] < deg by {
                let x = order@[t];
                vstd::seq_lib::to_multiset_contains(order@, x);
                vstd::seq_lib::to_multiset_contains(plain, x);
                let s = choose|s: int| 0 <= s < plain.len() && plain[s] == x;
            }
        }
        let mut t: usize = 0;
        while t < order.len()
            invariant
                self.wf(),
                d_goal@.len() == self.node_count(),
                visited@.len() == self.node_count(),
                target + tol <= u64::MAX,
                limit == target + tol,
                traversed <= limit,
                node < self.node_count(),
                deg == self.degree(node as int),
                forall|s: int| 0 <= s < order@.len() ==> #[trigger] order@[s] < deg,
                !here_mid,
                visited@[node as int],
                plain.len() == deg,
                forall|s: int| 0 <= s < deg ==> #[trigger] plain[s] == s,
                order@.to_multiset() == plain.to_multiset(),
                forall|q: int| 0 <= q < t ==> #[trigger] blocked(
                    *self,
                    d_goal@,
                    visited@,
                    start as int,
                    target as int,
                    tol as int,
                    traversed as int,
                    node as int,
                    order@[q] as int,
                ),
                path@ == old(path)@,
                visited@ == old(visited)@,
                path@.len() >= 1,
                path@[0] == start,
                path@.last() == node,
                self.follows(path@, slots@),
                self.length_along(path@, slots@) == traversed,
                t <= order@.len(),
            decreases order@.len() - t,
        {
            let slot = order[t];
            let ghost tq = t as int;
            t += 1;
            let edge = self.adj()[node][slot];
            let v = edge.node_index;
            proof {
                assert(edge == self.entry(node as int, slot as int));
            }
            if visited[v] {
                proof {
                    self.lemma_first_step_blocked(d_goal@, visited@, start as int, target as int, tol as int, traversed as int, node as int, slot as int);
                }
                continue;
            }
            let len = edge.edge_data.length_mm;
            if len > limit - traversed {
                proof {
                    self.lemma_first_step_blocked(d_goal@, visited@, start as int, target as int, tol as int, traversed as int, node as int, slot as int);
                }
                continue;
            }
            let next_traversed = traversed + len;
            let dv = match d_goal[v] {
                Some(x) => x,
                None => {
                    proof {
                        self.lemma_first_step_blocked(d_goal@, visited@, start as int, target as int, tol as int, traversed as int, node as int, slot as int);
                    }
                    continue;
                },
            };
            if dv > limit - next_traversed {
                proof {
                    self.lemma_first_step_blocked(d_goal@, visited@, start as int, target as int, tol as int, traversed as int, node as int, slot as int);
                }
                continue;
            }
            let ghost vis0 = visited@;
            proof {
                lemma_count_false_update(visited@, v as int);
                self.lemma_follows_push(path@, slots@, slot);
            }
            visited.set(v, true);
            path.push(v);
            let found = self.recursive_dfs(
                v,
                next_traversed,
                start,
                d_goal,
                target,
                tol,
                rng,
                path,
                visited,
                Ghost(slots@.push(slot)),
            );
            path.pop();
            visited.set(v, false);
            proof {
                assert(path@ =~= old(path)@);
                assert(visited@ =~= old(visited)@);
            }
            if found.is_some() {
                proof {
                    let res = found->0;
                    let l = old(path)@.len() as int;
                    let p1 = old(path)@.push(v);
                    assert(res.0@.subrange(0, l + 1) == p1);
                    assert(res.0@.subrange(0, l) =~= p1.subrange(0, l));
                    assert(p1.subrange(0, l) =~= old(path)@);
                    let ext1 = res.0@.subrange(l, res.0@.len() as int);
                    let es1 = choose|es: Seq<usize>|
                        #[trigger] leads_to_midpoint(
                            *self,
                            d_goal@,
                            vis0.update(v as int, true),
                            start as int,
                            target as int,
                            tol as int,
                            next_traversed as int,
                            ext1,
                            es,
                        ) && res.1 == next_traversed + prefix_len(*self, ext1, es, es.len() as int);
                    assert(p1[l] == v);
                    assert(ext1[0] == res.0@[l]);
                    assert(res.0@[l] == res.0@.subrange(0, l + 1)[l]);
                    lemma_midpoint_prepend(*self, d_goal@, vis0, start as int, target as int, tol as int, traversed as int, node, slot, ext1, es1);
                    assert(res.0@[l - 1] == res.0@.subrange(0, l)[l - 1]);
                    assert(seq![node] + ext1 =~= res.0@.subrange(l - 1, res.0@.len() as int));
                    assert(leads_to_midpoint(*self, d_goal@, old(visited)@, start as int, target as int, tol as int, traversed as int, res.0@.subrange(l - 1, res.0@.len() as int), seq![slot] + es1));
                }
                return found;
            }
            proof {
                assert forall|ext: Seq<usize>, es: Seq<usize>|
                    ext.len() >= 2 && ext[0] == node && es[0] == slot implies !#[trigger] leads_to_midpoint(
                        *self,
                        d_goal@,
                        visited@,
                        start as int,
                        target as int,
                        tol as int,
                        traversed as int,
                        ext,
                        es,
                    ) by {
                    if leads_to_midpoint(*self, d_goal@, visited@, start as int, target as int, tol as int, traversed as int, ext, es) {
                        assert(es[0] < self.degree(ext[0] as int));
                        assert(self.entry(ext[0] as int, es[0] as int).node_index == ext[1]);
                        lemma_midpoint_drop_first(*self, d_goal@, visited@, start as int, target as int, tol as int, traversed as int, ext, es);
                        assert(vis0 == visited@.update(v as int, true));
                        assert(ext.drop_first()[0] == v);
                    }
                }
                assert(blocked(*self, d_goal@, visited@, start as int, target as int, tol as int, traversed as int, node as int, slot as int));
            }
        }
        proof {
            assert forall|ext: Seq<usize>, ext_slots: Seq<usize>|
                ext.len() >= 1 && ext[0] == node implies !#[trigger] leads_to_midpoint(
                    *self,
                    d_goal@,
                    old(visited)@,
                    start as int,
                    target as int,
                    tol as int,
                    traversed as int,
                    ext,
                    ext_slots,
                ) by {
                if leads_to_midpoint(*self, d_goal@, old(visited)@, start as int, target as int, tol as int, traversed as int, ext, ext_slots) {
                    if ext.len() == 1 {
                        assert(ext.subrange(0, 1).len() == 1);
                        assert(ext_slots.subrange(0, 0).len() == 0);
                        assert(prefix_len(*self, ext, ext_slots, 0) == 0);
                        assert(here_mid);
                    } else {
                        let j = ext_slots[0];
                        assert(j < deg);
                        assert(plain[j as int] == j);
                        vstd::seq_lib::to_multiset_contains(plain, j);
                        vstd::seq_lib::to_multiset_contains(order@, j);
                        let q = choose|q: int| 0 <= q < order@.len() && order@[q] == j;
                        assert(blocked(*self, d_goal@, visited@, start as int, target as int, tol as int, traversed as int, node as int, order@[q] as int));
                    }
                }
            }
        }
        None
    }

    /// The randomized half of the hybrid search, given the reverse pass's
    /// distances to `goal` (`d_goal`) and next nodes (`parent`). `None` where
    /// `start` has no known distance to `goal`, before any walk. Otherwise up
    /// to `k` routes, one for each of `k` independent walks that succeeds: a
    /// random walk from `start` to a midpoint, then the way home from the
    /// midpoint by `parent`; its stated length is the walk's length plus the
    /// midpoint's distance, within `tol` of `target`.
    pub fn paths_from_residuals(
        &self,
        start: usize,
        goal: usize,
        k: usize,
        target_distance: u64,
        tol: u64,
        d_goal: &Vec<Option<u64>>,
        parent: &Vec<Option<usize>>,
        rng: &mut rand::rngs::ThreadRng,
    ) -> (r: Option<Vec<(Vec<usize>, u64)>>)
        requires
            self.wf(),
            start < self.node_count(),
            goal < self.node_count(),
            residuals_ok(*self, goal as int, d_goal@, parent@),
            target_distance + tol <= u64::MAX,
        ensures
            r is None <==> d_goal@[start as int] is None,
            r matches Some(rs) ==> {
                &&& forall|i: int|
                    0 <= i < rs@.len() ==> stitched_route(
                        *self,
                        d_goal@,
                        parent@,
                        start as int,
                        goal as int,
                        target_distance as int,
                        tol as int,
                        (#[trigger] rs@[i]).0@,
                        rs@[i].1 as int,
                    )
                &&& rs@.len() <= k
                &&& (exists|ext: Seq<usize>, es: Seq<usize>|
                    ext.len() >= 1 && ext[0] == start && #[trigger] leads_to_midpoint(
                        *self,
                        d_goal@,
                        only_start(self.node_count() as nat, start as int),
                        start as int,
                        target_distance as int,
                        tol as int,
                        0,
                        ext,
                        es,
                    )) ==> rs@.len() == k
                &&& forall|i: int|
                    0 <= i < rs@.len() ==> hybrid_route(
                        *self,
                        (#[trigger] rs@[i]).0@,
                        rs@[i].1 as int,
                        start as int,
                        goal as int,
                        target_distance as int,
                        tol as int,
                    )
            },
    {
        if d_goal[start].is_none() {
            return None;
        }
        let n = self.nodes().len();
        let mut results: Vec<(Vec<usize>, u64)> = Vec::new();
        let mut round: usize = 0;
        while round < k
            invariant
                self.wf(),
                n == self.node_count(),
                start < n,
                goal < n,
                residuals_ok(*self, goal as int, d_goal@, parent@),
                target_distance + tol <= u64::MAX,
                round <= k,
                results@.len() <= round,
                forall|i: int|
                0 <= i < results@.len() ==> stitched_route(
                        *self,
                        d_goal@,
                        parent@,
                        start as int,
                        goal as int,
                        target_distance as int,
                        tol as int,
                        (#[trigger] results@[i]).0@,
                        results@[i].1 as int,
                    ),
                (exists|ext: Seq<usize>, es: Seq<usize>|
                    ext.len() >= 1 && ext[0] == start && #[trigger] leads_to_midpoint(
                        *self,
                        d_goal@,
                        only_start(n as nat, start as int),
                        start as int,
                        target_distance as int,
                        tol as int,
                        0,
                        ext,
                        es,
                    )) ==> results@.len() == round,
                forall|i: int|
                    0 <= i < results@.len() ==> hybrid_route(
                        *self,
                        (#[trigger] results@[i]).0@,
                        results@[i].1 as int,
                        start as int,
                        goal as int,
                        target_distance as int,
                        tol as int,
                    ),
            decreases k - round,
        {
            round += 1;
            let mut path: Vec<usize> = Vec::new();
            path.push(start);
            let mut visited: Vec<bool> = Vec::new();
            let mut i: usize = 0;
            while i < n
                invariant
                    i <= n,
                    visited@.len() == i,
                    forall|v: int| 0 <= v < i ==> !(#[trigger] visited@[v]),
                decreases n - i,
            {
                visited.push(false);
                i += 1;
            }
            visited.set(start, true);
            proof {
                assert(self.follows(path@, Seq::<usize>::empty()));
                assert(visited@ =~= only_start(n as nat, start as int));
            }
            let walk = self.recursive_dfs(
                start,
                0,
                start,
                d_goal,
                target_distance,
                tol,
                rng,
                &mut path,
                &mut visited,
                Ghost(Seq::empty()),
            );
            proof {
                if walk is None {
                    if exists|ext: Seq<usize>, es: Seq<usize>|
                        ext.len() >= 1 && ext[0] == start && #[trigger] leads_to_midpoint(
                            *self,
                            d_goal@,
                            only_start(n as nat, start as int),
                            start as int,
                            target_distance as int,
                            tol as int,
                            0,
                            ext,
                            es,
                        ) {
                        let (ext, es) = choose|ext: Seq<usize>, es: Seq<usize>|
                            ext.len() >= 1 && ext[0] == start && #[trigger] leads_to_midpoint(
                                *self,
                                d_goal@,
                                only_start(n as nat, start as int),
                                start as int,
                                target_distance as int,
                                tol as int,
                                0,
                                ext,
                                es,
                            );
                        assert(false);
                    }
                }
            }
            if let Some((outbound, traversed)) = walk {
                let mid = outbound[outbound.len() - 1];
                let dg_mid = d_goal[mid].unwrap();
                let total = traversed + dg_mid;
                let ghost out = outbound@;
                let full = self.way_home(outbound, traversed, goal, d_goal, parent);
                let ghost r0 = results@;
                results.push((full, total));
                proof {
                    assert(out.subrange(0, 1) =~= seq![start]);
                    assert(out.subrange(0, out.len() as int) =~= out);
                    let es = choose|es: Seq<usize>|
                        #[trigger] leads_to_midpoint(
                            *self,
                            d_goal@,
                            only_start(n as nat, start as int),
                            start as int,
                            target_distance as int,
                            tol as int,
                            0,
                            out.subrange(0, out.len() as int),
                            es,
                        ) && traversed == 0 + prefix_len(*self, out.subrange(0, out.len() as int), es, es.len() as int);
                    let home = choose|home: Seq<usize>|
                        #[trigger] parent_chain(parent@, home, goal as int) && home[0] == out.last() && full@ == out
                            + home.drop_first();
                    assert(stitched(*self, d_goal@, parent@, start as int, goal as int, target_distance as int, tol as int, full@, total as int, out, es, home));
                    assert forall|i: int| 0 <= i < results@.len() implies stitched_route(
                        *self,
                        d_goal@,
                        parent@,
                        start as int,
                        goal as int,
                        target_distance as int,
                        tol as int,
                        (#[trigger] results@[i]).0@,
                        results@[i].1 as int,
                    ) by {
                        if i < r0.len() {
                            assert(results@[i] == r0[i]);
                        }
                    }
                }
            }
        }
        Some(results)
    }

    /// Extends `walk` (of length `traversed`, ending at a node with a known
    /// distance) by following `parent` to `goal`.
    fn way_home(
        &self,
        walk: Vec<usize>,
        traversed: u64,
        goal: usize,
        d_goal: &Vec<Option<u64>>,
        parent: &Vec<Option<usize>>,
    ) -> (r: Vec<usize>)
        requires
            self.wf(),
            residuals_ok(*self, goal as int, d_goal@, parent@),
            walk@.len() >= 1,
            walk@.last() < self.node_count(),
            self.is_route(walk@, traversed as int),
            d_goal@[walk@.last() as int] is Some,
        ensures
            r@.len() >= 1,
            r@[0] == walk@[0],
            r@.last() == goal,
            exists|d2: int|
                d2 <= traversed + d_goal@[walk@.last() as int]->0 && #[trigger] self.is_route(r@, d2),
            exists|home: Seq<usize>|
                #[trigger] parent_chain(parent@, home, goal as int) && home[0] == walk@.last() && r@ == walk@
                    + home.drop_first(),
    {
        let ghost first = walk@[0];
        let ghost w0 = walk@;
        let ghost mut home: Seq<usize> = seq![walk@.last()];
        let ghost bound = traversed + d_goal@[walk@.last() as int]->0;
        let ghost rank = choose|rank: Seq<nat>| #[trigger] ranked(parent@, rank);
        let mut full = walk;
        let mut cur = full[full.len() - 1];
        let ghost mut len_so_far: int = traversed as int;
        while cur != goal
            invariant
                self.wf(),
                residuals_ok(*self, goal as int, d_goal@, parent@),
                ranked(parent@, rank),
                full@.len() >= 1,
                full@[0] == first,
                full@.last() == cur,
                cur < self.node_count(),
                d_goal@[cur as int] is Some,
                self.is_route(full@, len_so_far),
                len_so_far + d_goal@[cur as int]->0 <= bound,
                home.len() >= 1,
                home[0] == w0.last(),
                home.last() == cur,
                full@ == w0 + home.drop_first(),
                forall|t: int|
                    0 <= t < home.len() - 1 ==> #[trigger] home[t] != goal && parent@[home[t] as int] == Some(home[t + 1]),
            decreases rank[cur as int],
        {
            proof {
                assert(step_home(*self, d_goal@, parent@, cur as int));
            }
            let p = parent[cur].unwrap();
            let deg = self.adj()[cur].len();
            let ghost mut new_slots: Seq<usize> = Seq::empty();
            proof {
                let j = choose|j: int|
                    0 <= j < self.degree(cur as int) && (#[trigger] self.entry(cur as int, j)).node_index == p
                        && d_goal@[p as int]->0 + self.entry(cur as int, j).edge_data.length_mm
                        <= d_goal@[cur as int]->0;
                let slots = choose|slots: Seq<usize>|
                    self.follows(full@, slots) && self.length_along(full@, slots) == len_so_far;
                self.lemma_follows_push(full@, slots, j as usize);
                len_so_far = len_so_far + self.entry(cur as int, j).edge_data.length_mm;
                new_slots = slots.push(j as usize);
            }
            full.push(p);
            proof {
                assert(self.follows(full@, new_slots) && self.length_along(full@, new_slots) == len_so_far);
                let h0 = home;
                home = home.push(p);
                assert(home.drop_first() =~= h0.drop_first().push(p));
                assert(full@ =~= w0 + home.drop_first());
                assert forall|t: int| 0 <= t < home.len() - 1 implies #[trigger] home[t] != goal && parent@[home[t] as int] == Some(home[t + 1]) by {
                    if t < h0.len() - 1 {
                        assert(home[t] == h0[t] && home[t + 1] == h0[t + 1]);
                    } else {
                        assert(home[t] == cur);
                    }
                }
            }
            cur = p;
        }
        proof {
            assert(len_so_far <= bound);
            assert(self.is_route(full@, len_so_far));
            assert(parent_chain(parent@, home, goal as int));
        }
        full
    }

    /// Randomized hybrid search: the reverse pass from `goal`, bounded by
    /// `target_distance + tol`, then `k` random walks as
    /// `paths_from_residuals` describes.
    pub fn find_paths_with_dfs(
        &self,
        start: usize,
        goal: usize,
        k: usize,
        target_distance: u64,
        tol: u64,
    ) -> (r: Option<Vec<(Vec<usize>, u64)>>)
        requires
            self.wf(),
            symmetric(self.spec_adj()),
            start < self.node_count(),
            goal < self.node_count(),
            target_distance + tol <= u64::MAX,
        ensures
            r is None ==> forall|p: Seq<usize>, slots: Seq<usize>|
                #![trigger self.follows(p, slots)]
                self.follows(p, slots) && p[0] == goal && p.last() == start ==> self.length_along(p, slots)
                    > target_distance + tol,
            r matches Some(rs) ==> exists|dist: Seq<Option<u64>>, parent: Seq<Option<usize>>|
                #[trigger] reverse_pass_ok(*self, goal as int, Some((target_distance + tol) as u64), dist, parent)
                    && dist[start as int] is Some && (forall|i: int|
                    0 <= i < rs@.len() ==> stitched_route(
                        *self,
                        dist,
                        parent,
                        start as int,
                        goal as int,
                        target_distance as int,
                        tol as int,
                        (#[trigger] rs@[i]).0@,
                        rs@[i].1 as int,
                    )) && ((exists|ext: Seq<usize>, es: Seq<usize>|
                    ext.len() >= 1 && ext[0] == start && #[trigger] leads_to_midpoint(
                        *self,
                        dist,
                        only_start(self.node_count() as nat, start as int),
                        start as int,
                        target_distance as int,
                        tol as int,
                        0,
                        ext,
                        es,
                    )) ==> rs@.len() == k),
            r matches Some(rs) ==> {
                &&& rs@.len() <= k
                &&& forall|i: int|
                    0 <= i < rs@.len() ==> hybrid_route(
                        *self,
                        (#[trigger] rs@[i]).0@,
                        rs@[i].1 as int,
                        start as int,
                        goal as int,
                        target_distance as int,
                        tol as int,
                    )
            },
    {
        let (d_goal, parent) = self.dijkstra(goal, Some(target_distance + tol));
        let mut rng = rand::rng();
        let r = self.paths_from_residuals(start, goal, k, target_distance, tol, &d_goal, &parent, &mut rng);
        proof {
            assert(reverse_pass_ok(*self, goal as int, Some((target_distance + tol) as u64), d_goal@, parent@));
            if r is None {
                assert forall|p: Seq<usize>, slots: Seq<usize>|
                    #![trigger self.follows(p, slots)]
                    self.follows(p, slots) && p[0] == goal && p.last() == start implies self.length_along(p, slots)
                        > target_distance + tol by {
                    if self.length_along(p, slots) <= target_distance + tol {
                        assert(under(Some((target_distance + tol) as u64), self.length_along(p, slots)));
                    }
                }
            }
        }
        r
    }

    /// Reverse shortest-path pass from `goal`: for each node, a distance to
    /// `goal` and the next node on the way there. Relaxing stops once the
    /// nearest open distance exceeds `max_dist`.
    #[verifier::rlimit(100)]
    #[verifier::spinoff_prover]
    pub fn dijkstra(&self, goal: usize, max_dist: Option<u64>) -> (r: (Vec<Option<u64>>, Vec<Option<usize>>))
        requires
            self.wf(),
            symmetric(self.spec_adj()),
            goal < self.node_count(),
        ensures
            residuals_ok(*self, goal as int, r.0@, r.1@),
            r.1@[goal as int] is None,
            parents_exact(*self, r.0@, r.1@, max_dist),
            forall|p: Seq<usize>, slots: Seq<usize>|
                #![trigger self.follows(p, slots)]
                self.follows(p, slots) && p[0] == goal && under(max_dist, self.length_along(p, slots))
                    && self.length_along(p, slots) <= u64::MAX ==> {
                    &&& r.0@[p.last() as int] is Some
                    &&& r.0@[p.last() as int]->0 <= self.length_along(p, slots)
                },
    {
        let n = self.nodes().len();
        let mut dist: Vec<Option<u64>> = Vec::new();
        let mut parent: Vec<Option<usize>> = Vec::new();
        let mut i: usize = 0;
        while i < n
            invariant
                i <= n,
                dist@.len() == i,
                parent@.len() == i,
                forall|v: int| 0 <= v < i ==> (#[trigger] dist@[v]) is None,
                forall|v: int| 0 <= v < i ==> (#[trigger] parent@[v]) is None,
            decreases n - i,
        {
            dist.push(None);
            parent.push(None);
            i += 1;
        }
        dist.set(goal, Some(0));
        let ghost mut done_nodes: Seq<bool> = Seq::new(n as nat, |v: int| false);
        let ghost mut rank: Seq<nat> = Seq::new(n as nat, |v: int| 0nat);
        let ghost mut floor: int = 0;
        let mut heap: Vec<BasicState> = Vec::new();
        heap.push(BasicState { node: goal, dist: 0 });
        proof {
            assert(heap@[0].node == goal && heap@[0].dist == 0);
            assert(ranked(parent@, rank));
            assert(queued(heap@, goal as int, 0));
        }
        while heap.len() > 0
            invariant_except_break
                forall|v: int| 0 <= v < n && (#[trigger] dist@[v]) is Some ==> queued(heap@, v, dist@[v]->0)
                    || relaxed(*self, dist@, v, dist@[v]->0),
            invariant
                self.wf(),
                symmetric(self.spec_adj()),
                n == self.node_count(),
                residuals_ok(*self, goal as int, dist@, parent@),
                parent@[goal as int] is None,
                parents_exact(*self, dist@, parent@, max_dist),
                done_nodes.len() == n,
                rank.len() == n,
                forall|t: int| 0 <= t < heap@.len() ==> (#[trigger] heap@[t]).dist >= floor,
                forall|v: int| 0 <= v < n && #[trigger] done_nodes[v] ==> dist@[v] is Some && dist@[v]->0 <= floor,
                forall|w: int| 0 <= w < n && (#[trigger] parent@[w]) is Some ==> parent@[w]->0 < n && done_nodes[parent@[w]->0 as int],
                ranked(parent@, rank),
                forall|t: int| 0 <= t < heap@.len() ==> (#[trigger] heap@[t]).node < n,
                forall|t: int| 0 <= t < heap@.len() ==> dist@[(#[trigger] heap@[t]).node as int] is Some
                    && dist@[heap@[t].node as int]->0 <= heap@[t].dist,
            ensures
                settled(*self, dist@, max_dist),
            decreases potential(dist@) + heap@.len(),
        {
            let ghost before = heap@;
            let item = pop_nearest(&mut heap);
            proof {
                let i = choose|i: int| 0 <= i < before.len() && item == before[i] && heap@ == before.remove(i);
                assert(item.node < n);
                assert forall|t: int| 0 <= t < heap@.len() implies (#[trigger] heap@[t]).node < n by {
                    if t < i {
                        assert(heap@[t] == before[t]);
                    } else {
                        assert(heap@[t] == before[t + 1]);
                    }
                }
            }
            let ghost popped_at = choose|i: int| 0 <= i < before.len() && item == before[i] && heap@ == before.remove(i);
            proof {
                assert forall|t: int| 0 <= t < heap@.len() implies (#[trigger] heap@[t]).dist >= floor by {
                    if t < popped_at {
                        assert(heap@[t] == before[t]);
                    } else {
                        assert(heap@[t] == before[t + 1]);
                    }
                }
                assert forall|t: int| 0 <= t < heap@.len() implies dist@[(#[trigger] heap@[t]).node as int] is Some
                    && dist@[heap@[t].node as int]->0 <= heap@[t].dist by {
                    if t < popped_at {
                        assert(heap@[t] == before[t]);
                    } else {
                        assert(heap@[t] == before[t + 1]);
                    }
                }
            }
            let u = item.node;
            let du = match dist[u] {
                Some(x) => x,
                None => {
                    proof {
                        assert(dist@[before[popped_at].node as int] is Some);
                    }
                    continue;
                },
            };
            if item.dist > du {
                proof {
                    assert forall|v: int| 0 <= v < n && (#[trigger] dist@[v]) is Some implies queued(heap@, v, dist@[v]->0)
                        || relaxed(*self, dist@, v, dist@[v]->0) by {
                        if queued(before, v, dist@[v]->0) {
                            let t = choose|t: int| 0 <= t < before.len() && (#[trigger] before[t]).node == v && before[t].dist == dist@[v]->0;
                            assert(t != popped_at);
                            if t < popped_at {
                                assert(heap@[t] == before[t]);
                            } else {
                                assert(heap@[t - 1] == before[t]);
                            }
                        }
                    }
                }
                continue;
            }
            proof {
                assert(item.dist == du);
            }
            if let Some(cutoff) = max_dist {
                if du > cutoff {
                    proof {
                        assert forall|v: int| 0 <= v < n && (#[trigger] dist@[v]) is Some && under(max_dist, dist@[v]->0 as int)
                            implies relaxed(*self, dist@, v, dist@[v]->0) by {
                            if queued(before, v, dist@[v]->0) {
                                let t = choose|t: int| 0 <= t < before.len() && (#[trigger] before[t]).node == v && before[t].dist == dist@[v]->0;
                                assert(item.dist <= before[t].dist);
                            }
                        }
                    }
                    break;
                }
            }
            proof {
                assert forall|v: int| 0 <= v < n && v != u && (#[trigger] dist@[v]) is Some implies queued(heap@, v, dist@[v]->0)
                    || relaxed(*self, dist@, v, dist@[v]->0) by {
                    if queued(before, v, dist@[v]->0) {
                        let t = choose|t: int| 0 <= t < before.len() && (#[trigger] before[t]).node == v && before[t].dist == dist@[v]->0;
                        assert(t != popped_at);
                        if t < popped_at {
                            assert(heap@[t] == before[t]);
                        } else {
                            assert(heap@[t - 1] == before[t]);
                        }
                    }
                }
            }
            proof {
                assert(before[popped_at].dist >= floor);
                assert forall|t: int| 0 <= t < heap@.len() implies (#[trigger] heap@[t]).dist >= du by {
                    if t < popped_at {
                        assert(heap@[t] == before[t]);
                    } else {
                        assert(heap@[t] == before[t + 1]);
                    }
                }
                floor = du as int;
                done_nodes = done_nodes.update(u as int, true);
            }
            let ghost p0 = potential(dist@) + heap@.len();
            let mut j: usize = 0;
            while j < self.adj()[u].len()
                invariant
                    self.wf(),
                    symmetric(self.spec_adj()),
                    n == self.node_count(),
                    u < n,
                    dist@[u as int] == Some(du),
                    residuals_ok(*self, goal as int, dist@, parent@),
                    parent@[goal as int] is None,
                    parents_exact(*self, dist@, parent@, max_dist),
                    under(max_dist, du as int),
                    done_nodes.len() == n,
                    rank.len() == n,
                    forall|t: int| 0 <= t < heap@.len() ==> (#[trigger] heap@[t]).dist >= floor,
                    forall|v: int| 0 <= v < n && #[trigger] done_nodes[v] ==> dist@[v] is Some && dist@[v]->0 <= floor,
                    forall|w: int| 0 <= w < n && (#[trigger] parent@[w]) is Some ==> parent@[w]->0 < n && done_nodes[parent@[w]->0 as int],
                    ranked(parent@, rank),
                    done_nodes[u as int],
                    floor == du,
                    forall|t: int| 0 <= t < heap@.len() ==> (#[trigger] heap@[t]).node < n,
                    j <= self.degree(u as int),
                    potential(dist@) + heap@.len() <= p0,
                    forall|t: int| 0 <= t < heap@.len() ==> dist@[(#[trigger] heap@[t]).node as int] is Some
                        && dist@[heap@[t].node as int]->0 <= heap@[t].dist,
                    forall|v: int| 0 <= v < n && v != u && (#[trigger] dist@[v]) is Some ==> queued(heap@, v, dist@[v]->0)
                        || relaxed(*self, dist@, v, dist@[v]->0),
                    forall|j2: int|
                        0 <= j2 < j ==> du + (#[trigger] self.entry(u as int, j2)).edge_data.length_mm > u64::MAX || (
                        dist@[self.entry(u as int, j2).node_index as int] is Some
                            && dist@[self.entry(u as int, j2).node_index as int]->0 <= du
                            + self.entry(u as int, j2).edge_data.length_mm),
                decreases self.degree(u as int) - j,
            {
                let edge = self.adj()[u][j];
                let v = edge.node_index;
                proof {
                    assert(edge == self.entry(u as int, j as int));
                }
                j += 1;
                let len = edge.edge_data.length_mm;
                if len > u64::MAX - du {
                    continue;
                }
                let dv = du + len;
                let better = match dist[v] {
                    Some(x) => dv < x,
                    None => true,
                };
                let ghost dist_before = dist@;
                let ghost heap_before = heap@;
                if better {
                    proof {
                        lemma_potential_lower(dist@, v as int, dv);
                        assert(crate::builder::has_back_entry(self.spec_adj(), v as int, u as int, edge.edge_data));
                    }
                    let ghost d0 = dist@;
                    let ghost p_old = parent@;
                    let ghost r_old = rank;
                    assert(!done_nodes[v as int]);
                    dist.set(v, Some(dv));
                    parent.set(v, Some(u));
                    proof {
                        rank = rank.update(v as int, rank[u as int] + 1);
                        assert forall|w: int| 0 <= w < n && (#[trigger] parent@[w]) is Some implies parent@[w]->0 < n
                            && done_nodes[parent@[w]->0 as int] by {
                            if w != v {
                                assert(parent@[w] == p_old[w]);
                            }
                        }
                        assert forall|w: int| 0 <= w < parent@.len() && (#[trigger] parent@[w]) is Some implies parent@[w]->0
                            < parent@.len() && rank[parent@[w]->0 as int] < rank[w] by {
                            if w != v {
                                assert(parent@[w] == p_old[w]);
                                assert(ranked(p_old, r_old));
                                assert(done_nodes[p_old[w]->0 as int]);
                                assert(p_old[w]->0 != v);
                            }
                        }
                        assert(ranked(parent@, rank));
                        assert(self.entry(u as int, j - 1).node_index == v);
                        assert forall|w: int| 0 <= w < self.node_count() && (#[trigger] parent@[w]) is Some implies {
                            let u2 = parent@[w]->0 as int;
                            &&& dist@[u2] is Some
                            &&& under(max_dist, dist@[u2]->0 as int)
                            &&& dist@[w] is Some
                            &&& exists|jj: int|
                                0 <= jj < self.degree(u2) && (#[trigger] self.entry(u2, jj)).node_index == w && dist@[w]->0 == dist@[u2]->0
                                    + self.entry(u2, jj).edge_data.length_mm
                        } by {
                            if w != v {
                                assert(parent@[w] == p_old[w]);
                                let u2 = p_old[w]->0 as int;
                                assert(done_nodes[u2]);
                                assert(u2 != v);
                                assert(dist@[u2] == d0[u2]);
                                assert(dist@[w] == d0[w]);
                                let jw = choose|jw: int|
                                    0 <= jw < self.degree(u2) && (#[trigger] self.entry(u2, jw)).node_index == w && d0[w]->0 == d0[u2]->0
                                        + self.entry(u2, jw).edge_data.length_mm;
                                assert(self.entry(u2, jw).node_index == w);
                            } else {
                                assert(self.entry(u as int, j - 1).node_index == w);
                            }
                        }
                    }
                    heap.push(BasicState { node: v, dist: dv });
                    proof {
                        let jb = choose|jb: int|
                            0 <= jb < self.spec_adj()[v as int]@.len()
                                && (#[trigger] self.spec_adj()[v as int]@[jb]).node_index == u
                                && self.spec_adj()[v as int]@[jb].edge_data == edge.edge_data;
                        assert(self.entry(v as int, jb).node_index == u);
                        assert(v != goal);
                        assert(step_home(*self, dist@, parent@, v as int));
                        assert forall|w: int|
                            0 <= w < n && w != goal && (#[trigger] dist@[w]) is Some implies step_home(
                                *self,
                                dist@,
                                parent@,
                                w,
                            ) by {
                            if w != v {
                                assert(step_home(*self, d0, parent@, w)) by {
                                    assert(d0[w] == dist@[w]);
                                }
                                let pw = parent@[w]->0 as int;
                                let jw = choose|jw: int|
                                    0 <= jw < self.degree(w) && (#[trigger] self.entry(w, jw)).node_index
                                        == parent@[w]->0 && d0[pw]->0 + self.entry(w, jw).edge_data.length_mm
                                        <= d0[w]->0;
                                assert(self.entry(w, jw).node_index == parent@[w]->0);
                            }
                        }
                        assert(dist@[goal as int] == Some(0u64));
                        assert(v != u);
                        assert forall|t: int| 0 <= t < heap@.len() implies (#[trigger] heap@[t]).dist >= floor by {
                            if t < heap_before.len() {
                                assert(heap@[t] == heap_before[t]);
                            }
                        }
                        assert forall|w: int| 0 <= w < n && #[trigger] done_nodes[w] implies dist@[w] is Some && dist@[w]->0 <= floor by {
                            if w != v {
                                assert(dist@[w] == dist_before[w]);
                            }
                        }
                        assert forall|t: int| 0 <= t < heap@.len() implies dist@[(#[trigger] heap@[t]).node as int] is Some
                            && dist@[heap@[t].node as int]->0 <= heap@[t].dist by {
                            if t < heap_before.len() {
                                assert(heap@[t] == heap_before[t]);
                            }
                        }
                        assert forall|w: int| 0 <= w < n && w != u && (#[trigger] dist@[w]) is Some implies queued(heap@, w, dist@[w]->0)
                            || relaxed(*self, dist@, w, dist@[w]->0) by {
                            if w == v {
                                assert(heap@[heap@.len() - 1].node == v);
                            } else {
                                assert(dist@[w] == dist_before[w]);
                                if queued(heap_before, w, dist_before[w]->0) {
                                    let t = choose|t: int| 0 <= t < heap_before.len() && (#[trigger] heap_before[t]).node == w && heap_before[t].dist == dist_before[w]->0;
                                    assert(heap@[t] == heap_before[t]);
                                } else {
                                    assert forall|jj: int| 0 <= jj < self.degree(w) implies dist_before[w]->0 + (#[trigger] self.entry(w, jj)).edge_data.length_mm > u64::MAX || (
                                        dist@[self.entry(w, jj).node_index as int] is Some && dist@[self.entry(w, jj).node_index as int]->0 <= dist_before[w]->0
                                            + self.entry(w, jj).edge_data.length_mm) by {
                                        assert(relaxed(*self, dist_before, w, dist_before[w]->0));
                                    }
                                }
                            }
                        }
                    }
                }
                proof {
                    assert forall|j2: int|
                        0 <= j2 < j implies du + (#[trigger] self.entry(u as int, j2)).edge_data.length_mm > u64::MAX || (
                        dist@[self.entry(u as int, j2).node_index as int] is Some
                            && dist@[self.entry(u as int, j2).node_index as int]->0 <= du
                            + self.entry(u as int, j2).edge_data.length_mm) by {
                        if j2 < j - 1 {
                            assert(du + self.entry(u as int, j2).edge_data.length_mm > u64::MAX || (
                                dist_before[self.entry(u as int, j2).node_index as int] is Some
                                    && dist_before[self.entry(u as int, j2).node_index as int]->0 <= du
                                    + self.entry(u as int, j2).edge_data.length_mm));
                        }
                    }
                }
            }
            proof {
                assert(relaxed(*self, dist@, u as int, du));
            }
        }
        proof {
            assert forall|p: Seq<usize>, slots: Seq<usize>|
                #![trigger self.follows(p, slots)]
                self.follows(p, slots) && p[0] == goal && under(max_dist, self.length_along(p, slots))
                    && self.length_along(p, slots) <= u64::MAX implies {
                    &&& dist@[p.last() as int] is Some
                    &&& dist@[p.last() as int]->0 <= self.length_along(p, slots)
                } by {
                lemma_walk_distances(*self, dist@, max_dist, p, slots, p.len() - 1);
                assert(p.subrange(0, p.len() as int) =~= p);
                assert(slots.subrange(0, p.len() - 1) =~= slots);
            }
        }
        (dist, parent)
    }
}

} // verus!
