//! Searches over partial routes: distance-windowed (breadth-first) and
//! closeness-first.
use vstd::prelude::*;
use crate::graph::Graph;

verus! {

/// How many states back along its chain a search looks for a repeated node.
pub const MAX_LOOKBACK: u16 = 100;

/// One partial route of a search: its last node, the state it extends, and
/// its length so far in millimetres.
#[derive(Debug, Clone, Copy, PartialEq, Eq)]
pub struct SearchState {
    pub node: usize,
    pub prev: Option<usize>,
    pub distance: u64,
}

/// The states of the closeness-first search have the same shape.
pub type SpecialDijkstraState = SearchState;

/// Every state extends an earlier one.
pub open spec fn arena_ok(states: Seq<SearchState>) -> bool {
    forall|i: int|
        0 <= i < states.len() ==> match (#[trigger] states[i]).prev {
            Some(p) => p < i,
            None => true,
        }
}

/// The nodes of the route that state `i` stands for, from the root state on.
pub open spec fn chain(states: Seq<SearchState>, i: int) -> Seq<usize>
    decreases i,
{
    if 0 <= i < states.len() {
        match states[i].prev {
            Some(p) => if 0 <= p < i {
                chain(states, p as int).push(states[i].node)
            } else {
                seq![states[i].node]
            },
            None => seq![states[i].node],
        }
    } else {
        Seq::empty()
    }
}

/// `c` is among the last `w` entries of `p`.
pub open spec fn recent_contains(p: Seq<usize>, c: usize, w: int) -> bool {
    exists|t: int| 0 <= t < p.len() && p.len() - w <= t && #[trigger] p[t] == c
}

/// `d` lies within `tol` of `target`.
pub open spec fn in_window(d: int, target: int, tol: int) -> bool {
    target - tol <= d <= target + tol
}

/// `p` leads from `start` to `goal` through `g` with length `d`, and `d`
/// lies within `tol` of `target`.
pub open spec fn window_route(
    g: Graph,
    p: Seq<usize>,
    d: int,
    start: int,
    goal: int,
    target: int,
    tol: int,
) -> bool {
    &&& p.len() >= 1
    &&& p[0] == start
    &&& p.last() == goal
    &&& g.is_route(p, d)
    &&& in_window(d, target, tol)
}

/// State `i` stands for a route from `start` through `g` whose length is the
/// state's distance, at most `limit`.
pub open spec fn state_ok(g: Graph, states: Seq<SearchState>, i: int, start: int, limit: int) -> bool {
    &&& states[i].node < g.node_count()
    &&& chain(states, i).len() >= 1
    &&& chain(states, i)[0] == start
    &&& states[i].distance <= limit
    &&& g.is_route(chain(states, i), states[i].distance as int)
}

/// Every state of the arena stands for a route from `start` of length at
/// most `limit`.
pub open spec fn arena_sound(g: Graph, states: Seq<SearchState>, start: int, limit: int) -> bool {
    &&& arena_ok(states)
    &&& forall|i: int| 0 <= i < states.len() ==> #[trigger] state_ok(g, states, i, start, limit)
}

/// Extending a state by one adjacency entry, within `limit`, keeps the arena
/// sound.
pub proof fn lemma_arena_extend(
    g: Graph,
    states: Seq<SearchState>,
    start: int,
    limit: int,
    cur: int,
    j: int,
)
    requires
        g.wf(),
        limit <= u64::MAX,
        states.len() <= usize::MAX,
        j <= usize::MAX,
        arena_sound(g, states, start, limit),
        0 <= cur < states.len(),
        0 <= j < g.degree(states[cur].node as int),
        states[cur].distance + g.entry(states[cur].node as int, j).edge_data.length_mm <= limit,
    ensures
        arena_sound(
            g,
            states.push(
                SearchState {
                    node: g.entry(states[cur].node as int, j).node_index,
                    prev: Some(cur as usize),
                    distance: (states[cur].distance + g.entry(
                        states[cur].node as int,
                        j,
                    ).edge_data.length_mm) as u64,
                },
            ),
            start,
            limit,
        ),
{
    let e = g.entry(states[cur].node as int, j);
    let ns = SearchState {
        node: e.node_index,
        prev: Some(cur as usize),
        distance: (states[cur].distance + e.edge_data.length_mm) as u64,
    };
    let s2 = states.push(ns);
    let n = states.len() as int;
    assert(state_ok(g, states, cur, start, limit));
    lemma_chain_len(states, cur);
    lemma_chain_push(states, ns, cur);
    assert(chain(s2, n) == chain(states, cur).push(e.node_index));
    let p = chain(states, cur);
    let slots = choose|slots: Seq<usize>|
        g.follows(p, slots) && g.length_along(p, slots) == states[cur].distance as int;
    g.lemma_follows_push(p, slots, j as usize);
    assert(state_ok(g, s2, n, start, limit));
    assert forall|i: int| 0 <= i < s2.len() implies #[trigger] state_ok(g, s2, i, start, limit) by {
        if i < n {
            lemma_chain_push(states, ns, i);
            assert(state_ok(g, states, i, start, limit));
            assert(s2[i] == states[i]);
        }
    }
    assert forall|i: int|
        0 <= i < s2.len() implies match (#[trigger] s2[i]).prev {
            Some(p) => p < i,
            None => true,
        } by {
        if i < n {
            assert(s2[i] == states[i]);
        }
    }
}

/// The length of the first `t` steps of `p` along `slots`.
pub open spec fn prefix_len(g: Graph, p: Seq<usize>, slots: Seq<usize>, t: int) -> int {
    g.length_along(p.subrange(0, t + 1), slots.subrange(0, t))
}

/// After `t` steps the walk stands at `goal` with a length inside the window.
pub open spec fn accepted_at(
    g: Graph,
    p: Seq<usize>,
    slots: Seq<usize>,
    t: int,
    goal: int,
    target: int,
    tol: int,
) -> bool {
    p[t] == goal && in_window(prefix_len(g, p, slots, t), target, tol)
}

/// The distance-windowed search takes step `t` of the walk: the walk was not
/// accepted before it, the next node is not among the last `MAX_LOOKBACK`
/// (unless it is `goal`), and neither the length after the step nor that
/// length plus the next node's straight-line bound exceeds
/// `target + tol`.
pub open spec fn step_taken(
    g: Graph,
    p: Seq<usize>,
    slots: Seq<usize>,
    t: int,
    goal: int,
    target: int,
    tol: int,
    bounds: Seq<u64>,
) -> bool {
    let next = p[t + 1];
    let d = prefix_len(g, p, slots, t + 1);
    &&& !accepted_at(g, p, slots, t, goal, target, tol)
    &&& !(recent_contains(p.subrange(0, t + 1), next, MAX_LOOKBACK as int) && next != goal)
    &&& d <= target + tol
    &&& d + bounds[next as int] <= target + tol
}

/// A walk from `start` every step of which the distance-windowed search
/// takes.
pub open spec fn admissible(
    g: Graph,
    p: Seq<usize>,
    slots: Seq<usize>,
    start: int,
    goal: int,
    target: int,
    tol: int,
    bounds: Seq<u64>,
) -> bool {
    &&& g.follows(p, slots)
    &&& p[0] == start
    &&& forall|t: int| 0 <= t < slots.len() ==> #[trigger] step_taken(g, p, slots, t, goal, target, tol, bounds)
}

/// An admissible walk that ends accepted: a route the distance-windowed
/// search is after.
pub open spec fn wanted(
    g: Graph,
    p: Seq<usize>,
    slots: Seq<usize>,
    start: int,
    goal: int,
    target: int,
    tol: int,
    bounds: Seq<u64>,
) -> bool {
    admissible(g, p, slots, start, goal, target, tol, bounds) && accepted_at(
        g,
        p,
        slots,
        slots.len() as int,
        goal,
        target,
        tol,
    )
}

/// There are at least `usize::MAX` distinct admissible walks: only then can
/// the distance-windowed search run out of room for partial routes.
pub open spec fn huge_search(
    g: Graph,
    start: int,
    goal: int,
    target: int,
    tol: int,
    bounds: Seq<u64>,
) -> bool {
    exists|ws: Seq<(Seq<usize>, Seq<usize>)>|
        #![trigger ws.len()]
        ws.len() == usize::MAX && (forall|i: int|
            0 <= i < ws.len() ==> admissible(g, (#[trigger] ws[i]).0, ws[i].1, start, goal, target, tol, bounds))
            && (forall|i: int, j: int| 0 <= i < j < ws.len() ==> #[trigger] ws[i] != #[trigger] ws[j])
}

/// Extending an admissible walk by a step the search takes keeps it
/// admissible.
proof fn lemma_admissible_push(
    g: Graph,
    p: Seq<usize>,
    sl: Seq<usize>,
    v: usize,
    j: usize,
    start: int,
    goal: int,
    target: int,
    tol: int,
    bounds: Seq<u64>,
)
    requires
        admissible(g, p, sl, start, goal, target, tol, bounds),
        g.follows(p.push(v), sl.push(j)),
        step_taken(g, p.push(v), sl.push(j), sl.len() as int, goal, target, tol, bounds),
    ensures
        admissible(g, p.push(v), sl.push(j), start, goal, target, tol, bounds),
{
    let p2 = p.push(v);
    let s2 = sl.push(j);
    assert forall|t: int| 0 <= t < s2.len() implies #[trigger] step_taken(g, p2, s2, t, goal, target, tol, bounds) by {
        if t < sl.len() {
            assert(step_taken(g, p, sl, t, goal, target, tol, bounds));
            assert(p2.subrange(0, t + 1) =~= p.subrange(0, t + 1));
            assert(s2.subrange(0, t) =~= sl.subrange(0, t));
            assert(p2.subrange(0, t + 2) =~= p.subrange(0, t + 2));
            assert(s2.subrange(0, t + 1) =~= sl.subrange(0, t + 1));
            assert(p2[t + 1] == p[t + 1]);
            assert(p2[t] == p[t]);
        }
    }
}

/// States are made in order of parent and then entry, so no two share a
/// route.
proof fn lemma_slots_distinct(states: Seq<SearchState>, slots_of: Seq<Seq<usize>>, a: int, b: int)
    requires
        arena_ok(states),
        slots_of.len() == states.len(),
        slots_of[0].len() == 0,
        forall|i: int| 1 <= i < states.len() ==> (#[trigger] states[i]).prev is Some && slots_of[i] == slots_of[states[i].prev->0 as int].push(
            slots_of[i].last(),
        ),
        forall|x: int, y: int|
            1 <= x < y < states.len() ==> #[trigger] states[x].prev->0 < #[trigger] states[y].prev->0 || (
            states[x].prev->0 == states[y].prev->0 && slots_of[x].last() < slots_of[y].last()),
        0 <= a < b < states.len(),
    ensures
        slots_of[a] != slots_of[b],
    decreases b,
{
    if slots_of[a] == slots_of[b] {
        if a == 0 {
            assert(slots_of[b].len() >= 1);
        } else {
            let pa = states[a].prev->0 as int;
            let pb = states[b].prev->0 as int;
            assert(states[a].prev->0 < states[b].prev->0 || (states[a].prev->0 == states[b].prev->0 && slots_of[a].last() < slots_of[b].last()));
            assert(slots_of[pa] =~= slots_of[a].drop_last());
            assert(slots_of[pb] =~= slots_of[b].drop_last());
            assert(pa < a && pb < b);
            if pa != pb {
                lemma_slots_distinct(states, slots_of, pa, pb);
            }
        }
    }
}

/// A child made along a step the search takes has an admissible route.
proof fn lemma_child_admissible(
    g: Graph,
    states: Seq<SearchState>,
    slots_of: Seq<Seq<usize>>,
    cur: int,
    j: int,
    start: int,
    goal: int,
    target: int,
    tol: int,
    bounds: Seq<u64>,
)
    requires
        g.wf(),
        0 <= cur < states.len(),
        0 <= j < g.degree(states[cur].node as int),
        j <= usize::MAX,
        slots_exact(g, states, slots_of),
        admissible(g, chain(states, cur), slots_of[cur], start, goal, target, tol, bounds),
        !state_accepted(states, cur, goal, target, tol),
        expands(g, states, cur, j, goal, target + tol, bounds),
    ensures
        admissible(
            g,
            chain(states, cur).push(g.entry(states[cur].node as int, j).node_index),
            slots_of[cur].push(j as usize),
            start,
            goal,
            target,
            tol,
            bounds,
        ),
{
    let p = chain(states, cur);
    let sl = slots_of[cur];
    let v = g.entry(states[cur].node as int, j).node_index;
    lemma_chain_len(states, cur);
    assert(g.follows(p, sl) && g.length_along(p, sl) == states[cur].distance);
    g.lemma_follows_push(p, sl, j as usize);
    let p2 = p.push(v);
    let s2 = sl.push(j as usize);
    let m = sl.len() as int;
    assert(p2.subrange(0, m + 1) =~= p);
    assert(s2.subrange(0, m) =~= sl);
    assert(p2.subrange(0, m + 2) =~= p2);
    assert(s2.subrange(0, m + 1) =~= s2);
    assert(step_taken(g, p2, s2, m, goal, target, tol, bounds));
    lemma_admissible_push(g, p, sl, v, j as usize, start, goal, target, tol, bounds);
}

/// There are at least `cap` distinct walks from `start` every step of which
/// the closeness-first search takes: only then does it run out of room for
/// partial routes.
pub open spec fn crowded_search(g: Graph, start: int, goal: int, limit: int, cap: int) -> bool {
    exists|ws: Seq<(Seq<usize>, Seq<usize>)>|
        #![trigger ws.len()]
        ws.len() == cap && (forall|i: int|
            0 <= i < ws.len() ==> tried_walk(g, (#[trigger] ws[i]).0, ws[i].1, start, goal, limit))
            && (forall|i: int, j: int| 0 <= i < j < ws.len() ==> #[trigger] ws[i] != #[trigger] ws[j])
}

/// A walk from `start` every step of which the closeness-first search takes.
pub open spec fn tried_walk(g: Graph, p: Seq<usize>, slots: Seq<usize>, start: int, goal: int, limit: int) -> bool {
    &&& g.follows(p, slots)
    &&& p[0] == start
    &&& forall|t: int| 0 <= t < slots.len() ==> #[trigger] step_tried(g, p, slots, t, goal, limit)
}

/// Children of one state are made in order of their entry, so no two
/// states share a route.
proof fn lemma_slots_distinct_by_parent(
    states: Seq<SearchState>,
    slots_of: Seq<Seq<usize>>,
    a: int,
    b: int,
)
    requires
        arena_ok(states),
        slots_of.len() == states.len(),
        slots_of[0].len() == 0,
        forall|i: int| 1 <= i < states.len() ==> (#[trigger] states[i]).prev is Some && slots_of[i] == slots_of[states[i].prev->0 as int].push(
            slots_of[i].last(),
        ),
        forall|x: int, y: int|
            1 <= x < y < states.len() && #[trigger] states[x].prev == #[trigger] states[y].prev ==> slots_of[x].last()
                < slots_of[y].last(),
        0 <= a < states.len(),
        0 <= b < states.len(),
        a != b,
    ensures
        slots_of[a] != slots_of[b],
    decreases a + b,
{
    if slots_of[a] == slots_of[b] {
        if a == 0 {
            assert(slots_of[b].len() >= 1);
        } else if b == 0 {
            assert(slots_of[a].len() >= 1);
        } else {
            let pa = states[a].prev->0 as int;
            let pb = states[b].prev->0 as int;
            assert(slots_of[pa] =~= slots_of[a].drop_last());
            assert(slots_of[pb] =~= slots_of[b].drop_last());
            if pa != pb {
                lemma_slots_distinct_by_parent(states, slots_of, pa, pb);
            } else if a < b {
                assert(states[a].prev == states[b].prev);
            } else {
                assert(states[b].prev == states[a].prev);
            }
        }
    }
}

/// A child made along a step the closeness-first search takes has a tried
/// route.
proof fn lemma_child_tried(
    g: Graph,
    states: Seq<SearchState>,
    slots_of: Seq<Seq<usize>>,
    cur: int,
    j: int,
    start: int,
    goal: int,
    limit: int,
)
    requires
        g.wf(),
        0 <= cur < states.len(),
        0 <= j < g.degree(states[cur].node as int),
        j <= usize::MAX,
        slots_exact(g, states, slots_of),
        tried_walk(g, chain(states, cur), slots_of[cur], start, goal, limit),
        tries(g, states, cur, j, goal, limit),
    ensures
        tried_walk(
            g,
            chain(states, cur).push(g.entry(states[cur].node as int, j).node_index),
            slots_of[cur].push(j as usize),
            start,
            goal,
            limit,
        ),
{
    let p = chain(states, cur);
    let sl = slots_of[cur];
    let v = g.entry(states[cur].node as int, j).node_index;
    lemma_chain_len(states, cur);
    assert(g.follows(p, sl) && g.length_along(p, sl) == states[cur].distance);
    g.lemma_follows_push(p, sl, j as usize);
    let p2 = p.push(v);
    let s2 = sl.push(j as usize);
    let m = sl.len() as int;
    assert(p2.subrange(0, m + 1) =~= p);
    assert(p2.subrange(0, m + 2) =~= p2);
    assert(s2.subrange(0, m + 1) =~= s2);
    assert(step_tried(g, p2, s2, m, goal, limit));
    assert forall|t: int| 0 <= t < s2.len() implies #[trigger] step_tried(g, p2, s2, t, goal, limit) by {
        if t < m {
            assert(step_tried(g, p, sl, t, goal, limit));
            assert(p2.subrange(0, t + 1) =~= p.subrange(0, t + 1));
            assert(p2.subrange(0, t + 2) =~= p.subrange(0, t + 2));
            assert(s2.subrange(0, t + 1) =~= sl.subrange(0, t + 1));
            assert(p2[t + 1] == p[t + 1]);
        }
    }
}

/// `a` comes before `b` in lexicographic order: they agree up to some
/// position, where `a` holds the smaller entry.
pub open spec fn lex_less(a: Seq<usize>, b: Seq<usize>) -> bool {
    exists|i: int|
        #![trigger a[i], b[i]]
        0 <= i < a.len() && i < b.len() && a[i] < b[i] && a.subrange(0, i) == b.subrange(0, i)
}

/// Breadth-first order of entry sequences: fewer entries first, then
/// lexicographic.
pub open spec fn bfs_before(a: Seq<usize>, b: Seq<usize>) -> bool {
    a.len() < b.len() || (a.len() == b.len() && lex_less(a, b))
}

/// Results `rs` (walk and length), with entry sequences `ss`: each a wanted
/// walk with its length, in strictly breadth-first order of their entries,
/// and where `k` came back, no wanted walk before the last is missing.
pub open spec fn ordered_answers(
    g: Graph,
    start: int,
    goal: int,
    k: int,
    target: int,
    tol: int,
    bounds: Seq<u64>,
    rs: Seq<(Seq<usize>, int)>,
    ss: Seq<Seq<usize>>,
) -> bool {
    &&& ss.len() == rs.len()
    &&& forall|i: int|
        0 <= i < rs.len() ==> wanted(g, (#[trigger] rs[i]).0, ss[i], start, goal, target, tol, bounds)
            && rs[i].1 == prefix_len(g, rs[i].0, ss[i], ss[i].len() as int)
    &&& forall|i: int, j: int| 0 <= i < j < rs.len() ==> bfs_before(#[trigger] ss[i], #[trigger] ss[j])
    &&& (rs.len() == k && k > 0) ==> forall|p: Seq<usize>, sl: Seq<usize>|
        #[trigger] wanted(g, p, sl, start, goal, target, tol, bounds) && bfs_before(sl, ss[k - 1])
            ==> exists|i: int| 0 <= i < rs.len() && (#[trigger] rs[i]).0 == p && ss[i] == sl
}

/// What the distance-windowed search returns: at most `k` results, the
/// wanted walks in breadth-first order (see `ordered_answers`), and, where
/// fewer than `k` came back, every wanted walk, unless the graph has so many
/// admissible walks that the search ran out of room.
pub open spec fn bfs_answers(
    g: Graph,
    start: int,
    goal: int,
    k: int,
    target: int,
    tol: int,
    bounds: Seq<u64>,
    rs: Seq<(Seq<usize>, int)>,
) -> bool {
    &&& rs.len() <= k
    &&& exists|ss: Seq<Seq<usize>>| #[trigger] ordered_answers(g, start, goal, k, target, tol, bounds, rs, ss)
    &&& rs.len() < k ==> huge_search(g, start, goal, target, tol, bounds) || forall|p: Seq<usize>, sl: Seq<usize>|
        #[trigger] wanted(g, p, sl, start, goal, target, tol, bounds) ==> exists|i: int|
            0 <= i < rs.len() && (#[trigger] rs[i]).0 == p && rs[i].1 == prefix_len(g, p, sl, sl.len() as int)
}

/// The walks and lengths of search results.
pub open spec fn answers_view(r: Seq<(Vec<usize>, u64)>) -> Seq<(Seq<usize>, int)> {
    r.map_values(|x: (Vec<usize>, u64)| (x.0@, x.1 as int))
}

proof fn lemma_before_push(a: Seq<usize>, b: Seq<usize>, x: usize, y: usize)
    requires
        bfs_before(a, b),
    ensures
        bfs_before(a.push(x), b.push(y)),
{
    if a.len() == b.len() {
        let i = choose|i: int|
            #![trigger a[i], b[i]]
            0 <= i < a.len() && i < b.len() && a[i] < b[i] && a.subrange(0, i) == b.subrange(0, i);
        assert(a.push(x).subrange(0, i) =~= a.subrange(0, i));
        assert(b.push(y).subrange(0, i) =~= b.subrange(0, i));
        assert(a.push(x)[i] == a[i] && b.push(y)[i] == b[i]);
    }
}

proof fn lemma_before_sibling(a: Seq<usize>, x: usize, y: usize)
    requires
        x < y,
    ensures
        bfs_before(a.push(x), a.push(y)),
{
    let i = a.len() as int;
    assert(a.push(x).subrange(0, i) =~= a.push(y).subrange(0, i));
    assert(a.push(x)[i] == x && a.push(y)[i] == y);
}

proof fn lemma_before_trans(a: Seq<usize>, b: Seq<usize>, c: Seq<usize>)
    requires
        bfs_before(a, b),
        bfs_before(b, c),
    ensures
        bfs_before(a, c),
{
    if a.len() == b.len() && b.len() == c.len() {
        let i = choose|i: int|
            #![trigger a[i], b[i]]
            0 <= i < a.len() && i < b.len() && a[i] < b[i] && a.subrange(0, i) == b.subrange(0, i);
        let j = choose|j: int|
            #![trigger b[j], c[j]]
            0 <= j < b.len() && j < c.len() && b[j] < c[j] && b.subrange(0, j) == c.subrange(0, j);
        let m = if i < j { i } else { j };
        assert(a.subrange(0, m) =~= c.subrange(0, m)) by {
            assert(a.subrange(0, m) =~= a.subrange(0, i).subrange(0, m));
            assert(b.subrange(0, m) =~= b.subrange(0, i).subrange(0, m));
            assert(b.subrange(0, m) =~= b.subrange(0, j).subrange(0, m));
            assert(c.subrange(0, m) =~= c.subrange(0, j).subrange(0, m));
        }
        if i < j {
            assert(b.subrange(0, j)[i] == c.subrange(0, j)[i]);
        } else if j < i {
            assert(a.subrange(0, i)[j] == b.subrange(0, i)[j]);
        }
        assert(a[m] < c[m]);
    }
}

proof fn lemma_before_irreflexive(a: Seq<usize>)
    ensures
        !bfs_before(a, a),
{
}

/// A wanted walk's first `t` steps are the route of a state before `h`,
/// where the states before `h` have been expanded wherever the search
/// expands, states are in breadth-first order, and every state from `h` on
/// comes after the walk.
proof fn lemma_walk_has_state_upto(
    g: Graph,
    states: Seq<SearchState>,
    slots_of: Seq<Seq<usize>>,
    p: Seq<usize>,
    slots: Seq<usize>,
    start: int,
    goal: int,
    target: int,
    tol: int,
    bounds: Seq<u64>,
    h: int,
    t: int,
)
    requires
        g.wf(),
        arena_ok(states),
        1 <= h <= states.len(),
        states[0].node == start,
        states[0].prev is None,
        states[0].distance == 0,
        slots_of[0] == Seq::<usize>::empty(),
        slots_exact(g, states, slots_of),
        forall|i: int, j: int|
            0 <= i < h && 0 <= j < g.degree(states[i].node as int) && !state_accepted(
                states,
                i,
                goal,
                target,
                tol,
            ) && expands(g, states, i, j, goal, target + tol, bounds) ==> #[trigger] has_child(
                g,
                states,
                slots_of,
                i,
                j,
            ),
        forall|c: int| h <= c < states.len() ==> bfs_before(slots, #[trigger] slots_of[c]),
        admissible(g, p, slots, start, goal, target, tol, bounds),
        0 <= t <= slots.len(),
    ensures
        exists|s: int|
            0 <= s < h && #[trigger] slots_of[s] == slots.subrange(0, t) && chain(states, s) == p.subrange(
                0,
                t + 1,
            ),
    decreases t,
{
    if t == 0 {
        assert(chain(states, 0) == seq![states[0].node]);
        assert(slots_of[0] == slots.subrange(0, 0));
        assert(chain(states, 0) =~= p.subrange(0, 1));
    } else {
        lemma_walk_has_state_upto(g, states, slots_of, p, slots, start, goal, target, tol, bounds, h, t - 1);
        let s = choose|s: int|
            0 <= s < h && #[trigger] slots_of[s] == slots.subrange(0, t - 1) && chain(states, s) == p.subrange(0, t);
        lemma_chain_len(states, s);
        assert(step_taken(g, p, slots, t - 1, goal, target, tol, bounds));
        let j = slots[t - 1] as int;
        assert(g.follows(chain(states, s), slots_of[s]));
        assert(states[s].distance == g.length_along(p.subrange(0, t), slots.subrange(0, t - 1)));
        assert(states[s].node == p[t - 1]);
        let pp = p.subrange(0, t + 1);
        let ss = slots.subrange(0, t);
        assert(pp.drop_last() =~= p.subrange(0, t));
        assert(ss.drop_last() =~= slots.subrange(0, t - 1));
        assert(prefix_len(g, p, slots, t) == states[s].distance + g.entry(p[t - 1] as int, j).edge_data.length_mm);
        assert(prefix_len(g, p, slots, t - 1) == states[s].distance);
        assert(g.entry(p[t - 1] as int, j).node_index == p[t]);
        assert(!state_accepted(states, s, goal, target, tol));
        assert(expands(g, states, s, j, goal, target + tol, bounds));
        assert(has_child(g, states, slots_of, s, j));
        let c = choose|c: int|
            0 <= c < states.len() && states[c].prev == Some(s as usize) && #[trigger] slots_of[c]
                == slots_of[s].push(j as usize) && chain(states, c) == chain(states, s).push(
                g.entry(states[s].node as int, j).node_index,
            );
        assert(slots_of[c] =~= slots.subrange(0, t));
        assert(chain(states, c) =~= p.subrange(0, t + 1));
        if c >= h {
            assert(bfs_before(slots, slots_of[c]));
            if t == slots.len() {
                assert(slots.subrange(0, t) =~= slots);
                lemma_before_irreflexive(slots);
            }
        }
    }
}

/// The states are in strictly breadth-first order of their entries.
pub open spec fn bfs_sorted(states: Seq<SearchState>, slots_of: Seq<Seq<usize>>) -> bool {
    forall|x: int, y: int| 0 <= x < y < states.len() ==> bfs_before(#[trigger] slots_of[x], #[trigger] slots_of[y])
}

/// Result `ri` is the route of state `res_idx[ri]`, taken from the queue
/// before `head` and accepted; the states are increasing; every accepted
/// state before `head` gave a result.
pub open spec fn results_from(
    states: Seq<SearchState>,
    results: Seq<(Vec<usize>, u64)>,
    res_idx: Seq<int>,
    head: int,
    goal: int,
    target: int,
    tol: int,
) -> bool {
    &&& res_idx.len() == results.len()
    &&& forall|ri: int|
        0 <= ri < results.len() ==> 0 <= #[trigger] res_idx[ri] < head && res_idx[ri] < states.len()
            && results[ri].0@ == chain(states, res_idx[ri]) && results[ri].1 == states[res_idx[ri]].distance
            && state_accepted(states, res_idx[ri], goal, target, tol)
    &&& forall|x: int, y: int| 0 <= x < y < res_idx.len() ==> #[trigger] res_idx[x] < #[trigger] res_idx[y]
    &&& forall|i: int|
        0 <= i < head && #[trigger] state_accepted(states, i, goal, target, tol) ==> exists|ri: int|
            0 <= ri < res_idx.len() && #[trigger] res_idx[ri] == i
}

proof fn lemma_results_record(
    states: Seq<SearchState>,
    r0: Seq<(Vec<usize>, u64)>,
    r1: Seq<(Vec<usize>, u64)>,
    res_idx: Seq<int>,
    cur: int,
    goal: int,
    target: int,
    tol: int,
)
    requires
        results_from(states, r0, res_idx, cur, goal, target, tol),
        0 <= cur < states.len(),
        state_accepted(states, cur, goal, target, tol),
        r1.len() == r0.len() + 1,
        forall|i: int| 0 <= i < r0.len() ==> r1[i] == r0[i],
        r1[r0.len() as int].0@ == chain(states, cur),
        r1[r0.len() as int].1 == states[cur].distance,
    ensures
        results_from(states, r1, res_idx.push(cur), cur + 1, goal, target, tol),
{
    let ri2 = res_idx.push(cur);
    assert forall|ri: int| 0 <= ri < r1.len() implies 0 <= #[trigger] ri2[ri] < cur + 1 && ri2[ri] < states.len()
        && r1[ri].0@ == chain(states, ri2[ri]) && r1[ri].1 == states[ri2[ri]].distance
        && state_accepted(states, ri2[ri], goal, target, tol) by {
        if ri < r0.len() {
            assert(ri2[ri] == res_idx[ri]);
            assert(r1[ri] == r0[ri]);
        }
    }
    assert forall|i: int|
        0 <= i < cur + 1 && #[trigger] state_accepted(states, i, goal, target, tol) implies exists|ri: int|
            0 <= ri < ri2.len() && #[trigger] ri2[ri] == i by {
        if i < cur {
            let ri = choose|ri: int| 0 <= ri < res_idx.len() && #[trigger] res_idx[ri] == i;
            assert(ri2[ri] == i);
        } else {
            assert(ri2[res_idx.len() as int] == i);
        }
    }
}

proof fn lemma_results_advance(
    states: Seq<SearchState>,
    results: Seq<(Vec<usize>, u64)>,
    res_idx: Seq<int>,
    cur: int,
    goal: int,
    target: int,
    tol: int,
)
    requires
        results_from(states, results, res_idx, cur, goal, target, tol),
        !state_accepted(states, cur, goal, target, tol),
    ensures
        results_from(states, results, res_idx, cur + 1, goal, target, tol),
{
}

proof fn lemma_results_push(
    states: Seq<SearchState>,
    ns: SearchState,
    results: Seq<(Vec<usize>, u64)>,
    res_idx: Seq<int>,
    head: int,
    goal: int,
    target: int,
    tol: int,
)
    requires
        results_from(states, results, res_idx, head, goal, target, tol),
        head <= states.len(),
    ensures
        results_from(states.push(ns), results, res_idx, head, goal, target, tol),
{
    let s2 = states.push(ns);
    assert forall|ri: int| 0 <= ri < results.len() implies 0 <= #[trigger] res_idx[ri] < head && res_idx[ri] < s2.len()
        && results[ri].0@ == chain(s2, res_idx[ri]) && results[ri].1 == s2[res_idx[ri]].distance
        && state_accepted(s2, res_idx[ri], goal, target, tol) by {
        lemma_chain_push(states, ns, res_idx[ri]);
        assert(s2[res_idx[ri]] == states[res_idx[ri]]);
    }
    assert forall|i: int|
        0 <= i < head && #[trigger] state_accepted(s2, i, goal, target, tol) implies exists|ri: int|
            0 <= ri < res_idx.len() && #[trigger] res_idx[ri] == i by {
        assert(s2[i] == states[i]);
        assert(state_accepted(states, i, goal, target, tol));
    }
}

proof fn lemma_prefix_full(g: Graph, p: Seq<usize>, sl: Seq<usize>)
    requires
        p.len() == sl.len() + 1,
    ensures
        prefix_len(g, p, sl, sl.len() as int) == g.length_along(p, sl),
{
    assert(p.subrange(0, sl.len() as int + 1) =~= p);
    assert(sl.subrange(0, sl.len() as int) =~= sl);
}

/// Results `rs` of the closeness-first search: each a sought walk (see
/// `sought`) with its length, no two with the same entries.
pub open spec fn sought_answers(
    g: Graph,
    start: int,
    goal: int,
    target: int,
    tol: int,
    rs: Seq<(Seq<usize>, int)>,
) -> bool {
    exists|ss: Seq<Seq<usize>>|
        #![trigger ss.len()]
        ss.len() == rs.len() && (forall|i: int|
            0 <= i < rs.len() ==> sought(g, (#[trigger] rs[i]).0, ss[i], start, goal, target, tol) && rs[i].1
                == prefix_len(g, rs[i].0, ss[i], ss[i].len() as int)) && (forall|i: int, j: int|
            0 <= i < j < rs.len() ==> #[trigger] ss[i] != #[trigger] ss[j])
}

/// Result `ri` of the closeness-first search is the route of the taken,
/// accepted state `res_idx[ri]`, and no state gave two results.
pub open spec fn taken_results(
    states: Seq<SearchState>,
    done: Seq<bool>,
    results: Seq<(Vec<usize>, u64)>,
    res_idx: Seq<int>,
    goal: int,
    target: int,
    tol: int,
) -> bool {
    &&& res_idx.len() == results.len()
    &&& forall|ri: int|
        0 <= ri < results.len() ==> 0 <= #[trigger] res_idx[ri] < states.len() && done[res_idx[ri]]
            && results[ri].0@ == chain(states, res_idx[ri]) && results[ri].1 == states[res_idx[ri]].distance
            && state_accepted(states, res_idx[ri], goal, target, tol)
    &&& forall|x: int, y: int| 0 <= x < y < res_idx.len() ==> #[trigger] res_idx[x] != #[trigger] res_idx[y]
}

proof fn lemma_taken_push(
    states: Seq<SearchState>,
    done: Seq<bool>,
    ns: SearchState,
    results: Seq<(Vec<usize>, u64)>,
    res_idx: Seq<int>,
    goal: int,
    target: int,
    tol: int,
)
    requires
        taken_results(states, done, results, res_idx, goal, target, tol),
        done.len() == states.len(),
    ensures
        taken_results(states.push(ns), done.push(false), results, res_idx, goal, target, tol),
{
    let s2 = states.push(ns);
    assert forall|ri: int| 0 <= ri < results.len() implies 0 <= #[trigger] res_idx[ri] < s2.len() && done.push(false)[res_idx[ri]]
        && results[ri].0@ == chain(s2, res_idx[ri]) && results[ri].1 == s2[res_idx[ri]].distance
        && state_accepted(s2, res_idx[ri], goal, target, tol) by {
        lemma_chain_push(states, ns, res_idx[ri]);
        assert(s2[res_idx[ri]] == states[res_idx[ri]]);
    }
}

proof fn lemma_taken_mark(
    states: Seq<SearchState>,
    done: Seq<bool>,
    results: Seq<(Vec<usize>, u64)>,
    res_idx: Seq<int>,
    cur: int,
    goal: int,
    target: int,
    tol: int,
)
    requires
        taken_results(states, done, results, res_idx, goal, target, tol),
        0 <= cur < done.len(),
        done.len() == states.len(),
    ensures
        taken_results(states, done.update(cur, true), results, res_idx, goal, target, tol),
{
    assert forall|ri: int| 0 <= ri < results.len() implies 0 <= #[trigger] res_idx[ri] < states.len() && done.update(cur, true)[res_idx[ri]]
        && results[ri].0@ == chain(states, res_idx[ri]) && results[ri].1 == states[res_idx[ri]].distance
        && state_accepted(states, res_idx[ri], goal, target, tol) by {
    }
}

proof fn lemma_taken_record(
    states: Seq<SearchState>,
    done0: Seq<bool>,
    done: Seq<bool>,
    r0: Seq<(Vec<usize>, u64)>,
    r1: Seq<(Vec<usize>, u64)>,
    res_idx: Seq<int>,
    cur: int,
    goal: int,
    target: int,
    tol: int,
)
    requires
        taken_results(states, done0, r0, res_idx, goal, target, tol),
        0 <= cur < states.len(),
        done0.len() == states.len(),
        !done0[cur],
        done == done0.update(cur, true),
        state_accepted(states, cur, goal, target, tol),
        r1.len() == r0.len() + 1,
        forall|i: int| 0 <= i < r0.len() ==> r1[i] == r0[i],
        r1[r0.len() as int].0@ == chain(states, cur),
        r1[r0.len() as int].1 == states[cur].distance,
    ensures
        taken_results(states, done, r1, res_idx.push(cur), goal, target, tol),
{
    let ri2 = res_idx.push(cur);
    assert forall|ri: int| 0 <= ri < r1.len() implies 0 <= #[trigger] ri2[ri] < states.len() && done[ri2[ri]]
        && r1[ri].0@ == chain(states, ri2[ri]) && r1[ri].1 == states[ri2[ri]].distance
        && state_accepted(states, ri2[ri], goal, target, tol) by {
        if ri < r0.len() {
            assert(ri2[ri] == res_idx[ri]);
            assert(r1[ri] == r0[ri]);
        }
    }
    assert forall|x: int, y: int| 0 <= x < y < ri2.len() implies #[trigger] ri2[x] != #[trigger] ri2[y] by {
        if y == res_idx.len() {
            assert(done0[res_idx[x]]);
        }
    }
}

/// State `i` has reached `goal` with a length inside the window.
pub open spec fn state_accepted(states: Seq<SearchState>, i: int, goal: int, target: int, tol: int) -> bool {
    states[i].node == goal && in_window(states[i].distance as int, target, tol)
}

/// The search expands state `i` along its `j`-th adjacency entry.
pub open spec fn expands(
    g: Graph,
    states: Seq<SearchState>,
    i: int,
    j: int,
    goal: int,
    limit: int,
    bounds: Seq<u64>,
) -> bool {
    let e = g.entry(states[i].node as int, j);
    let d = states[i].distance + e.edge_data.length_mm;
    &&& !(recent_contains(chain(states, i), e.node_index, MAX_LOOKBACK as int) && e.node_index != goal)
    &&& d <= limit
    &&& d + bounds[e.node_index as int] <= limit
}

/// State `i` has a child made along its `j`-th adjacency entry.
pub open spec fn has_child(
    g: Graph,
    states: Seq<SearchState>,
    slots_of: Seq<Seq<usize>>,
    i: int,
    j: int,
) -> bool {
    exists|c: int|
        0 <= c < states.len() && states[c].prev == Some(i as usize) && #[trigger] slots_of[c]
            == slots_of[i].push(j as usize) && chain(states, c) == chain(states, i).push(
            g.entry(states[i].node as int, j).node_index,
        )
}

/// Appending a state leaves the chains of the earlier ones as they were.
pub proof fn lemma_chain_push(states: Seq<SearchState>, s: SearchState, i: int)
    requires
        0 <= i < states.len(),
    ensures
        chain(states.push(s), i) == chain(states, i),
    decreases i,
{
    let s2 = states.push(s);
    assert(s2[i] == states[i]);
    match states[i].prev {
        Some(p) => if 0 <= p < i {
            lemma_chain_push(states, s, p as int);
        },
        None => {},
    }
}

pub proof fn lemma_chain_len(states: Seq<SearchState>, i: int)
    requires
        0 <= i < states.len(),
    ensures
        chain(states, i).len() >= 1,
        chain(states, i).last() == states[i].node,
    decreases i,
{
    match states[i].prev {
        Some(p) => if 0 <= p < i {
            lemma_chain_len(states, p as int);
        },
        None => {},
    }
}

/// Whether `candidate` is among the last `max_lookback` nodes of the route
/// that state `idx` stands for.
pub fn in_ancestry(states: &[SearchState], idx: usize, candidate: usize, max_lookback: u16) -> (r:
    bool)
    requires
        arena_ok(states@),
        idx < states@.len(),
    ensures
        r == recent_contains(chain(states@, idx as int), candidate, max_lookback as int),
{
    let ghost full = chain(states@, idx as int);
    let ghost len = full.len();
    proof {
        lemma_chain_len(states@, idx as int);
    }
    let mut cur: usize = idx;
    let mut steps: u16 = 0;
    while steps < max_lookback
        invariant
            arena_ok(states@),
            cur < states@.len(),
            steps <= max_lookback,
            len == full.len(),
            full == chain(states@, idx as int),
            steps < len,
            chain(states@, cur as int) == full.subrange(0, len - steps),
            forall|t: int| len - steps <= t < len ==> #[trigger] full[t] != candidate,
        decreases max_lookback - steps,
    {
        proof {
            lemma_chain_len(states@, cur as int);
        }
        if states[cur].node == candidate {
            assert(full[len - steps - 1] == candidate);
            return true;
        }
        match states[cur].prev {
            Some(p) => {
                assert(chain(states@, p as int) =~= full.subrange(0, len - steps - 1)) by {
                    assert(chain(states@, cur as int) == chain(states@, p as int).push(
                        states@[cur as int].node,
                    ));
                    assert(chain(states@, cur as int).drop_last() =~= chain(states@, p as int));
                }
                proof {
                    lemma_chain_len(states@, p as int);
                }
                cur = p;
                steps += 1;
            },
            None => {
                assert(len - steps == 1);
                assert(!recent_contains(full, candidate, max_lookback as int));
                return false;
            },
        }
    }
    false
}

/// The same lookback check over the states of the closeness-first search.
pub fn in_ancestry_dijkstra(
    states: &[SpecialDijkstraState],
    idx: usize,
    candidate: usize,
    max_lookback: u16,
) -> (r: bool)
    requires
        arena_ok(states@),
        idx < states@.len(),
    ensures
        r == recent_contains(chain(states@, idx as int), candidate, max_lookback as int),
{
    in_ancestry(states, idx, candidate, max_lookback)
}

/// The nodes of the route that state `idx` stands for, in order.
pub fn trace(states: &Vec<SearchState>, idx: usize) -> (r: Vec<usize>)
    requires
        arena_ok(states@),
        idx < states@.len(),
    ensures
        r@ == chain(states@, idx as int),
{
    let ghost full = chain(states@, idx as int);
    let ghost len = full.len();
    proof {
        lemma_chain_len(states@, idx as int);
    }
    let mut back: Vec<usize> = Vec::new();
    let mut cur: usize = idx;
    loop
        invariant_except_break
            back@.len() < len,
            chain(states@, cur as int) == full.subrange(0, len - back@.len()),
        invariant
            arena_ok(states@),
            cur < states@.len(),
            len == full.len(),
            full == chain(states@, idx as int),
            back@.len() <= len,
            forall|t: int| 0 <= t < back@.len() ==> #[trigger] back@[t] == full[len - 1 - t],
        ensures
            back@.len() == len,
        decreases cur,
    {
        proof {
            lemma_chain_len(states@, cur as int);
        }
        back.push(states[cur].node);
        match states[cur].prev {
            Some(p) => {
                assert(chain(states@, p as int) =~= full.subrange(0, len - back@.len())) by {
                    assert(chain(states@, cur as int).drop_last() =~= chain(states@, p as int));
                }
                proof {
                    lemma_chain_len(states@, p as int);
                }
                cur = p;
            },
            None => {
                assert(back@.len() == len);
                break;
            },
        }
    }
    let mut out: Vec<usize> = Vec::new();
    let mut t: usize = 0;
    while t < back.len()
        invariant
            back@.len() == len,
            t <= len,
            out@.len() == t,
            forall|s: int| 0 <= s < back@.len() ==> #[trigger] back@[s] == full[len - 1 - s],
            forall|s: int| 0 <= s < t ==> #[trigger] out@[s] == full[s],
        decreases len - t,
    {
        out.push(back[back.len() - 1 - t]);
        t += 1;
    }
    assert(out@ =~= full);
    out
}

/// The most states the closeness-first search keeps; once it holds that
/// many it expands nothing more and returns what it has found.
pub const MAX_HEURISTIC_STATES: usize = 20_000_000;

/// A frontier entry of the closeness-first search: a state, and how far its
/// estimated full length lies from the target.
#[derive(Debug, Clone, Copy, PartialEq, Eq)]
pub struct HeapItem {
    pub state_idx: usize,
    pub priority: u64,
}

/// `|a + b - target|`, capped at `u64::MAX`.
pub open spec fn closeness_spec(a: int, b: int, target: int) -> int {
    let d = if a + b >= target {
        a + b - target
    } else {
        target - (a + b)
    };
    if d > u64::MAX {
        u64::MAX as int
    } else {
        d
    }
}

fn closeness(a: u64, b: u64, target: u64) -> (r: u64)
    ensures
        r == closeness_spec(a as int, b as int, target as int),
{
    if b > u64::MAX - a {
        let over = b - (u64::MAX - a);
        // a + b == u64::MAX + over, and that exceeds `target` by at least `over`.
        if target >= over {
            let low = target - over;
            u64::MAX - low
        } else {
            u64::MAX
        }
    } else {
        let sum = a + b;
        if sum >= target {
            sum - target
        } else {
            target - sum
        }
    }
}

/// Takes out the first frontier entry of least priority.
fn pop_closest(frontier: &mut Vec<HeapItem>) -> (r: HeapItem)
    requires
        old(frontier)@.len() > 0,
    ensures
        exists|i: int|
            0 <= i < old(frontier)@.len() && r == old(frontier)@[i] && final(frontier)@ == old(
                frontier,
            )@.remove(i),
        forall|t: int|
            0 <= t < old(frontier)@.len() ==> r.priority <= (#[trigger] old(frontier)@[t]).priority,
{
    let mut best: usize = 0;
    let mut i: usize = 1;
    while i < frontier.len()
        invariant
            frontier@ == old(frontier)@,
            1 <= i <= frontier@.len(),
            best < i,
            forall|t: int| 0 <= t < i ==> frontier@[best as int].priority <= (#[trigger] frontier@[t]).priority,
        decreases frontier@.len() - i,
    {
        if frontier[i].priority < frontier[best].priority {
            best = i;
        }
        i += 1;
    }
    frontier.remove(best)
}

/// Whether `d` lies within `tol` of `target`.
fn within(d: u64, target: u64, tol: u64) -> (r: bool)
    ensures
        r == in_window(d as int, target as int, tol as int),
{
    if d >= target {
        d - target <= tol
    } else {
        target - d <= tol
    }
}

/// Every state but the root extends its parent by one adjacency entry, and
/// `slots_of[i]` picks the entries along state `i`'s route.
pub open spec fn slots_exact(g: Graph, states: Seq<SearchState>, slots_of: Seq<Seq<usize>>) -> bool {
    &&& slots_of.len() == states.len()
    &&& forall|i: int|
        0 <= i < states.len() ==> g.follows(chain(states, i), #[trigger] slots_of[i]) && g.length_along(
            chain(states, i),
            slots_of[i],
        ) == states[i].distance
}

proof fn lemma_push_keeps(
    g: Graph,
    states: Seq<SearchState>,
    slots_of: Seq<Seq<usize>>,
    ns: SearchState,
    nsl: Seq<usize>,
    i: int,
    j: int,
)
    requires
        0 <= i < states.len(),
        slots_of.len() == states.len(),
        arena_ok(states),
    ensures
        has_child(g, states, slots_of, i, j) ==> has_child(g, states.push(ns), slots_of.push(nsl), i, j),
        chain(states.push(ns), i) == chain(states, i),
        states.push(ns)[i] == states[i],
        slots_of.push(nsl)[i] == slots_of[i],
{
    lemma_chain_push(states, ns, i);
    if has_child(g, states, slots_of, i, j) {
        let c = choose|c: int|
            0 <= c < states.len() && states[c].prev == Some(i as usize) && #[trigger] slots_of[c]
                == slots_of[i].push(j as usize) && chain(states, c) == chain(states, i).push(
                g.entry(states[i].node as int, j).node_index,
            );
        lemma_chain_push(states, ns, c);
        assert(slots_of.push(nsl)[c] == slots_of[c]);
    }
}

/// A wanted walk's first `t` steps are the route of some state, where every
/// state has been expanded wherever the search expands.
proof fn lemma_walk_has_state(
    g: Graph,
    states: Seq<SearchState>,
    slots_of: Seq<Seq<usize>>,
    p: Seq<usize>,
    slots: Seq<usize>,
    start: int,
    goal: int,
    target: int,
    tol: int,
    bounds: Seq<u64>,
    t: int,
)
    requires
        g.wf(),
        arena_ok(states),
        states.len() >= 1,
        states[0].node == start,
        states[0].prev is None,
        states[0].distance == 0,
        slots_of[0] == Seq::<usize>::empty(),
        slots_exact(g, states, slots_of),
        forall|i: int, j: int|
            0 <= i < states.len() && 0 <= j < g.degree(states[i].node as int) && !state_accepted(
                states,
                i,
                goal,
                target,
                tol,
            ) && expands(g, states, i, j, goal, target + tol, bounds) ==> #[trigger] has_child(
                g,
                states,
                slots_of,
                i,
                j,
            ),
        admissible(g, p, slots, start, goal, target, tol, bounds),
        0 <= t <= slots.len(),
    ensures
        exists|s: int|
            0 <= s < states.len() && #[trigger] slots_of[s] == slots.subrange(0, t) && chain(states, s)
                == p.subrange(0, t + 1),
    decreases t,
{
    if t == 0 {
        assert(chain(states, 0) == seq![states[0].node]);
        assert(slots_of[0] == slots.subrange(0, 0));
        assert(chain(states, 0) =~= p.subrange(0, 1));
    } else {
        lemma_walk_has_state(g, states, slots_of, p, slots, start, goal, target, tol, bounds, t - 1);
        let s = choose|s: int|
            0 <= s < states.len() && #[trigger] slots_of[s] == slots.subrange(0, t - 1) && chain(states, s)
                == p.subrange(0, t);
        lemma_chain_len(states, s);
        assert(step_taken(g, p, slots, t - 1, goal, target, tol, bounds));
        let j = slots[t - 1] as int;
        assert(g.follows(chain(states, s), slots_of[s]));
        assert(states[s].distance == g.length_along(p.subrange(0, t), slots.subrange(0, t - 1)));
        assert(states[s].node == p[t - 1]);
        let pp = p.subrange(0, t + 1);
        let ss = slots.subrange(0, t);
        assert(pp.drop_last() =~= p.subrange(0, t));
        assert(ss.drop_last() =~= slots.subrange(0, t - 1));
        assert(prefix_len(g, p, slots, t) == states[s].distance + g.entry(p[t - 1] as int, j).edge_data.length_mm);
        assert(prefix_len(g, p, slots, t - 1) == states[s].distance);
        assert(g.entry(p[t - 1] as int, j).node_index == p[t]);
        assert(!state_accepted(states, s, goal, target, tol));
        assert(expands(g, states, s, j, goal, target + tol, bounds));
        assert(has_child(g, states, slots_of, s, j));
        let c = choose|c: int|
            0 <= c < states.len() && states[c].prev == Some(s as usize) && #[trigger] slots_of[c]
                == slots_of[s].push(j as usize) && chain(states, c) == chain(states, s).push(
                g.entry(states[s].node as int, j).node_index,
            );
        assert(slots_of[c] =~= slots.subrange(0, t));
        assert(chain(states, c) =~= p.subrange(0, t + 1));
    }
}

/// The closeness-first search takes step `t` of the walk: the next node is
/// not among the last `MAX_LOOKBACK` (unless it is `goal`), and the length
/// after the step does not exceed `target + tol`.
pub open spec fn step_tried(g: Graph, p: Seq<usize>, slots: Seq<usize>, t: int, goal: int, limit: int) -> bool {
    let next = p[t + 1];
    &&& !(recent_contains(p.subrange(0, t + 1), next, MAX_LOOKBACK as int) && next != goal)
    &&& prefix_len(g, p, slots, t + 1) <= limit
}

/// A walk from `start` that ends accepted, every step of which the
/// closeness-first search takes.
pub open spec fn sought(
    g: Graph,
    p: Seq<usize>,
    slots: Seq<usize>,
    start: int,
    goal: int,
    target: int,
    tol: int,
) -> bool {
    &&& g.follows(p, slots)
    &&& p[0] == start
    &&& forall|t: int| 0 <= t < slots.len() ==> #[trigger] step_tried(g, p, slots, t, goal, target + tol)
    &&& accepted_at(g, p, slots, slots.len() as int, goal, target, tol)
}

/// The closeness-first search expands state `i` along its `j`-th entry.
pub open spec fn tries(g: Graph, states: Seq<SearchState>, i: int, j: int, goal: int, limit: int) -> bool {
    let e = g.entry(states[i].node as int, j);
    &&& !(recent_contains(chain(states, i), e.node_index, MAX_LOOKBACK as int) && e.node_index != goal)
    &&& states[i].distance + e.edge_data.length_mm <= limit
}

/// Some frontier entry names state `i`.
pub open spec fn in_frontier(frontier: Seq<HeapItem>, i: int) -> bool {
    exists|t: int| 0 <= t < frontier.len() && (#[trigger] frontier[t]).state_idx == i
}

proof fn lemma_walk_has_state_tried(
    g: Graph,
    states: Seq<SearchState>,
    slots_of: Seq<Seq<usize>>,
    p: Seq<usize>,
    slots: Seq<usize>,
    start: int,
    goal: int,
    target: int,
    tol: int,
    t: int,
)
    requires
        g.wf(),
        arena_ok(states),
        states.len() >= 1,
        states[0].node == start,
        states[0].prev is None,
        states[0].distance == 0,
        slots_of[0] == Seq::<usize>::empty(),
        slots_exact(g, states, slots_of),
        forall|i: int, j: int|
            0 <= i < states.len() && 0 <= j < g.degree(states[i].node as int) && tries(
                g,
                states,
                i,
                j,
                goal,
                target + tol,
            ) ==> #[trigger] has_child(g, states, slots_of, i, j),
        sought(g, p, slots, start, goal, target, tol),
        0 <= t <= slots.len(),
    ensures
        exists|s: int|
            0 <= s < states.len() && #[trigger] slots_of[s] == slots.subrange(0, t) && chain(states, s)
                == p.subrange(0, t + 1),
    decreases t,
{
    if t == 0 {
        assert(chain(states, 0) == seq![states[0].node]);
        assert(slots_of[0] == slots.subrange(0, 0));
        assert(chain(states, 0) =~= p.subrange(0, 1));
    } else {
        lemma_walk_has_state_tried(g, states, slots_of, p, slots, start, goal, target, tol, t - 1);
        let s = choose|s: int|
            0 <= s < states.len() && #[trigger] slots_of[s] == slots.subrange(0, t - 1) && chain(states, s)
                == p.subrange(0, t);
        lemma_chain_len(states, s);
        assert(step_tried(g, p, slots, t - 1, goal, target + tol));
        let j = slots[t - 1] as int;
        assert(g.follows(chain(states, s), slots_of[s]));
        assert(states[s].distance == g.length_along(p.subrange(0, t), slots.subrange(0, t - 1)));
        assert(states[s].node == p[t - 1]);
        let pp = p.subrange(0, t + 1);
        let ss = slots.subrange(0, t);
        assert(pp.drop_last() =~= p.subrange(0, t));
        assert(ss.drop_last() =~= slots.subrange(0, t - 1));
        assert(prefix_len(g, p, slots, t) == states[s].distance + g.entry(p[t - 1] as int, j).edge_data.length_mm);
        assert(g.entry(p[t - 1] as int, j).node_index == p[t]);
        assert(tries(g, states, s, j, goal, target + tol));
        assert(has_child(g, states, slots_of, s, j));
        let c = choose|c: int|
            0 <= c < states.len() && states[c].prev == Some(s as usize) && #[trigger] slots_of[c]
                == slots_of[s].push(j as usize) && chain(states, c) == chain(states, s).push(
                g.entry(states[s].node as int, j).node_index,
            );
        assert(slots_of[c] =~= slots.subrange(0, t));
        assert(chain(states, c) =~= p.subrange(0, t + 1));
    }
}

impl Graph {
    /// Distance-windowed search: up to `k` routes from `start` to `goal`
    /// whose length lies within `tol` of `target_distance`, in the order in
    /// which a breadth-first walk over partial routes meets them.
    /// `goal_bounds[v]` is the straight-line distance from node `v` to `goal`,
    /// which no route from `v` undercuts; partial routes that could only end
    /// too long are dropped. See `bfs_with_status` for which routes are
    /// found.
    pub fn bfs(
        &self,
        start: usize,
        goal: usize,
        k: usize,
        target_distance: u64,
        tol: u64,
        goal_bounds: &Vec<u64>,
    ) -> (r: Vec<(Vec<usize>, u64)>)
        requires
            self.wf(),
            start < self.node_count(),
            goal < self.node_count(),
            goal_bounds@.len() == self.node_count(),
            target_distance + tol <= u64::MAX,
        ensures
            r@.len() <= k,
            forall|i: int|
                0 <= i < r@.len() ==> window_route(
                    *self,
                    (#[trigger] r@[i]).0@,
                    r@[i].1 as int,
                    start as int,
                    goal as int,
                    target_distance as int,
                    tol as int,
                ),
            bfs_answers(
                *self,
                start as int,
                goal as int,
                k as int,
                target_distance as int,
                tol as int,
                goal_bounds@,
                answers_view(r@),
            ),
    {
        let r = self.bfs_with_status(start, goal, k, target_distance, tol, goal_bounds);
        r.0
    }

    /// The distance-windowed search, with whether it ran to the end. It
    /// stops early only where its store of partial routes holds `usize::MAX`
    /// of them, which takes that many distinct admissible walks. Where it ran to the end and found fewer than `k` routes,
    /// every wanted walk (see `wanted`) is among them, with its length.
    #[verifier::rlimit(100)]
    #[verifier::spinoff_prover]
    pub fn bfs_with_status(
        &self,
        start: usize,
        goal: usize,
        k: usize,
        target_distance: u64,
        tol: u64,
        goal_bounds: &Vec<u64>,
    ) -> (r: (Vec<(Vec<usize>, u64)>, bool))
        requires
            self.wf(),
            start < self.node_count(),
            goal < self.node_count(),
            goal_bounds@.len() == self.node_count(),
            target_distance + tol <= u64::MAX,
        ensures
            r.0@.len() <= k,
            forall|i: int|
                0 <= i < r.0@.len() ==> window_route(
                    *self,
                    (#[trigger] r.0@[i]).0@,
                    r.0@[i].1 as int,
                    start as int,
                    goal as int,
                    target_distance as int,
                    tol as int,
                ),
            bfs_answers(
                *self,
                start as int,
                goal as int,
                k as int,
                target_distance as int,
                tol as int,
                goal_bounds@,
                answers_view(r.0@),
            ),
            !r.1 ==> huge_search(
                *self,
                start as int,
                goal as int,
                target_distance as int,
                tol as int,
                goal_bounds@,
            ),
    {
        let limit: u64 = target_distance + tol;
        let ghost bounds = goal_bounds@;
        let mut results: Vec<(Vec<usize>, u64)> = Vec::new();
        let mut states: Vec<SearchState> = Vec::new();
        states.push(SearchState { node: start, prev: None, distance: 0 });
        let ghost mut slots_of: Seq<Seq<usize>> = seq![Seq::<usize>::empty()];
        proof {
            assert(chain(states@, 0) == seq![start]);
            assert(self.follows(seq![start], Seq::<usize>::empty()));
            assert(self.length_along(seq![start], Seq::<usize>::empty()) == 0);
            assert(state_ok(*self, states@, 0, start as int, limit as int));
        }
        let ghost mut res_idx: Seq<int> = Seq::empty();
        let mut finished = true;
        let mut head: usize = 0;
        while head < states.len() && results.len() < k
            invariant_except_break
                finished,
                forall|i: int, j: int|
                    0 <= i < head && 0 <= j < self.degree(states@[i].node as int) && !state_accepted(
                        states@,
                        i,
                        goal as int,
                        target_distance as int,
                        tol as int,
                    ) && expands(*self, states@, i, j, goal as int, limit as int, bounds) ==> #[trigger] has_child(
                        *self,
                        states@,
                        slots_of,
                        i,
                        j,
                    ),
            invariant
                !finished ==> results@.len() < k,
                self.wf(),
                start < self.node_count(),
                goal < self.node_count(),
                goal_bounds@ == bounds,
                bounds.len() == self.node_count(),
                limit == target_distance + tol,
                head <= states@.len(),
                states@.len() <= usize::MAX,
                states@.len() >= 1,
                states@[0] == (SearchState { node: start, prev: None, distance: 0 }),
                slots_of[0] == Seq::<usize>::empty(),
                arena_sound(*self, states@, start as int, limit as int),
                slots_exact(*self, states@, slots_of),
                forall|i: int|
                    0 <= i < states@.len() ==> #[trigger] admissible(
                        *self,
                        chain(states@, i),
                        slots_of[i],
                        start as int,
                        goal as int,
                        target_distance as int,
                        tol as int,
                        bounds,
                    ),
                forall|i: int|
                    1 <= i < states@.len() ==> (#[trigger] states@[i]).prev is Some && slots_of[i]
                        == slots_of[states@[i].prev->0 as int].push(slots_of[i].last()),
                forall|x: int, y: int|
                    1 <= x < y < states@.len() ==> #[trigger] states@[x].prev->0 < #[trigger] states@[y].prev->0
                        || (states@[x].prev->0 == states@[y].prev->0 && slots_of[x].last() < slots_of[y].last()),
                forall|b: int| 1 <= b < states@.len() ==> (#[trigger] states@[b]).prev->0 < head,
                !finished ==> huge_search(
                    *self,
                    start as int,
                    goal as int,
                    target_distance as int,
                    tol as int,
                    bounds,
                ),
                results@.len() <= k,
                forall|i: int|
                    0 <= i < results@.len() ==> window_route(
                        *self,
                        (#[trigger] results@[i]).0@,
                        results@[i].1 as int,
                        start as int,
                        goal as int,
                        target_distance as int,
                        tol as int,
                    ),
                results_from(states@, results@, res_idx, head as int, goal as int, target_distance as int, tol as int),
                    bfs_sorted(states@, slots_of),
            ensures
                !finished ==> huge_search(
                    *self,
                    start as int,
                    goal as int,
                    target_distance as int,
                    tol as int,
                    bounds,
                ),
                finished ==> head == states@.len() || results@.len() >= k,
                finished ==> forall|i: int, j: int|
                    0 <= i < head && 0 <= j < self.degree(states@[i].node as int) && !state_accepted(
                        states@,
                        i,
                        goal as int,
                        target_distance as int,
                        tol as int,
                    ) && expands(*self, states@, i, j, goal as int, limit as int, bounds) ==> #[trigger] has_child(
                        *self,
                        states@,
                        slots_of,
                        i,
                        j,
                    ),
            decreases usize::MAX - states@.len(), states@.len() - head,
        {
            let current = head;
            head += 1;
            let node = states[current].node;
            let so_far = states[current].distance;
            proof {
                assert(state_ok(*self, states@, current as int, start as int, limit as int));
            }
            if node == goal && within(so_far, target_distance, tol) {
                let path = trace(&states, current);
                proof {
                    lemma_chain_len(states@, current as int);
                }
                let ghost r0 = results@;
                results.push((path, so_far));
                proof {
                    lemma_results_record(states@, r0, results@, res_idx, current as int, goal as int, target_distance as int, tol as int);
                    res_idx = res_idx.push(current as int);
                }
                continue;
            }
            proof {
                lemma_results_advance(states@, results@, res_idx, current as int, goal as int, target_distance as int, tol as int);
            }
            let ghost len0 = states@.len();
            let mut j: usize = 0;
            while j < self.adj()[node].len()
                invariant_except_break
                    finished,
                    forall|i: int, j2: int|
                        0 <= i < head && (i < current || j2 < j) && 0 <= j2 < self.degree(states@[i].node as int) && !state_accepted(
                            states@,
                            i,
                            goal as int,
                            target_distance as int,
                            tol as int,
                        ) && expands(*self, states@, i, j2, goal as int, limit as int, bounds) ==> #[trigger] has_child(
                            *self,
                            states@,
                            slots_of,
                            i,
                            j2,
                        ),
                invariant
                    results@.len() < k,
                    self.wf(),
                    goal_bounds@ == bounds,
                    bounds.len() == self.node_count(),
                    limit == target_distance + tol,
                    current < len0 <= states@.len(),
                    current + 1 == head,
                    states@.len() <= usize::MAX,
                    node == states@[current as int].node,
                    node < self.node_count(),
                    so_far == states@[current as int].distance,
                    so_far <= limit,
                    !state_accepted(states@, current as int, goal as int, target_distance as int, tol as int),
                    states@[0] == (SearchState { node: start, prev: None, distance: 0 }),
                    slots_of[0] == Seq::<usize>::empty(),
                    arena_sound(*self, states@, start as int, limit as int),
                    slots_exact(*self, states@, slots_of),
                    forall|i: int|
                        0 <= i < states@.len() ==> #[trigger] admissible(
                            *self,
                            chain(states@, i),
                            slots_of[i],
                            start as int,
                            goal as int,
                            target_distance as int,
                            tol as int,
                            bounds,
                        ),
                    forall|i: int|
                        1 <= i < states@.len() ==> (#[trigger] states@[i]).prev is Some && slots_of[i]
                            == slots_of[states@[i].prev->0 as int].push(slots_of[i].last()),
                    forall|x: int, y: int|
                        1 <= x < y < states@.len() ==> #[trigger] states@[x].prev->0 < #[trigger] states@[y].prev->0
                            || (states@[x].prev->0 == states@[y].prev->0 && slots_of[x].last() < slots_of[y].last()),
                    forall|b: int| 1 <= b < states@.len() ==> (#[trigger] states@[b]).prev->0 < current || (
                        states@[b].prev->0 == current && slots_of[b].last() < j),
                    !finished ==> huge_search(
                        *self,
                        start as int,
                        goal as int,
                        target_distance as int,
                        tol as int,
                        bounds,
                    ),
                    j <= self.degree(node as int),
                    results_from(states@, results@, res_idx, head as int, goal as int, target_distance as int, tol as int),
                    bfs_sorted(states@, slots_of),
                ensures
                    !finished ==> huge_search(
                        *self,
                        start as int,
                        goal as int,
                        target_distance as int,
                        tol as int,
                        bounds,
                    ),
                    finished ==> forall|i: int, j: int|
                        0 <= i < head && 0 <= j < self.degree(states@[i].node as int) && !state_accepted(
                            states@,
                            i,
                            goal as int,
                            target_distance as int,
                            tol as int,
                        ) && expands(*self, states@, i, j, goal as int, limit as int, bounds) ==> #[trigger] has_child(
                            *self,
                            states@,
                            slots_of,
                            i,
                            j,
                        ),
                decreases self.degree(node as int) - j,
            {
                let neighbor = self.adj()[node][j];
                let next = neighbor.node_index;
                proof {
                    assert(neighbor == self.entry(node as int, j as int));
                }
                let ghost jj = j as int;
                j += 1;
                if states.len() == usize::MAX {
                    proof {
                        let ws = Seq::new(states@.len() as nat, |i: int| (chain(states@, i), slots_of[i]));
                        assert forall|i: int| 0 <= i < ws.len() implies admissible(
                            *self,
                            (#[trigger] ws[i]).0,
                            ws[i].1,
                            start as int,
                            goal as int,
                            target_distance as int,
                            tol as int,
                            bounds,
                        ) by {
                            assert(admissible(*self, chain(states@, i), slots_of[i], start as int, goal as int, target_distance as int, tol as int, bounds));
                        }
                        assert forall|i: int, i2: int| 0 <= i < i2 < ws.len() implies #[trigger] ws[i] != #[trigger] ws[i2] by {
                            lemma_slots_distinct(states@, slots_of, i, i2);
                        }
                        assert(ws.len() == usize::MAX);
                    }
                    finished = false;
                    break;
                }
                if in_ancestry(states.as_slice(), current, next, MAX_LOOKBACK) && next != goal {
                    proof {
                        assert(!expands(*self, states@, current as int, jj, goal as int, limit as int, bounds));
                    }
                    continue;
                }
                let len = neighbor.edge_data.length_mm;
                if len > limit - so_far {
                    continue;
                }
                let new_distance = so_far + len;
                if goal_bounds[next] > limit - new_distance {
                    continue;
                }
                let ghost old_states = states@;
                let ghost old_slots = slots_of;
                let ns = SearchState { node: next, prev: Some(current), distance: new_distance };
                let ghost nsl = slots_of[current as int].push(jj as usize);
                proof {
                    lemma_arena_extend(*self, states@, start as int, limit as int, current as int, jj);
                    lemma_chain_len(states@, current as int);
                    self.lemma_follows_push(chain(states@, current as int), slots_of[current as int], jj as usize);
                    assert(expands(*self, states@, current as int, jj, goal as int, limit as int, bounds));
                    lemma_child_admissible(*self, states@, slots_of, current as int, jj, start as int, goal as int, target_distance as int, tol as int, bounds);
                }
                states.push(ns);
                proof {
                    slots_of = slots_of.push(nsl);
                    let n0 = old_states.len() as int;
                    assert(nsl.last() == jj as usize);
                    assert forall|i: int|
                        0 <= i < states@.len() implies #[trigger] admissible(
                            *self,
                            chain(states@, i),
                            slots_of[i],
                            start as int,
                            goal as int,
                            target_distance as int,
                            tol as int,
                            bounds,
                        ) by {
                        if i < n0 {
                            lemma_chain_push(old_states, ns, i);
                            assert(admissible(*self, chain(old_states, i), old_slots[i], start as int, goal as int, target_distance as int, tol as int, bounds));
                        } else {
                            lemma_chain_push(old_states, ns, current as int);
                        }
                    }
                    assert forall|i: int|
                        1 <= i < states@.len() implies (#[trigger] states@[i]).prev is Some && slots_of[i]
                            == slots_of[states@[i].prev->0 as int].push(slots_of[i].last()) by {
                        if i < n0 {
                            assert(states@[i] == old_states[i]);
                            assert(old_states[i].prev is Some && old_slots[i] == old_slots[old_states[i].prev->0 as int].push(old_slots[i].last()));
                        }
                    }
                    assert forall|x: int, y: int|
                        1 <= x < y < states@.len() implies #[trigger] states@[x].prev->0 < #[trigger] states@[y].prev->0
                            || (states@[x].prev->0 == states@[y].prev->0 && slots_of[x].last() < slots_of[y].last()) by {
                        assert(states@[x] == old_states[x]);
                        if y < n0 {
                            assert(states@[y] == old_states[y]);
                        } else {
                            assert(old_states[x].prev->0 < current || (old_states[x].prev->0 == current && old_slots[x].last() < jj));
                        }
                    }
                    assert forall|b: int| 1 <= b < states@.len() implies (#[trigger] states@[b]).prev->0 < current || (
                        states@[b].prev->0 == current && slots_of[b].last() < j) by {
                        if b < n0 {
                            assert(states@[b] == old_states[b]);
                        }
                    }
                    let n_old = old_states.len() as int;
                    lemma_chain_push(old_states, ns, current as int);
                    assert(chain(states@, n_old) == chain(old_states, current as int).push(next));
                    assert(states@[0] == old_states[0]);
                    assert forall|i: int| 0 <= i < states@.len() implies self.follows(chain(states@, i), #[trigger] slots_of[i])
                        && self.length_along(chain(states@, i), slots_of[i]) == states@[i].distance by {
                        if i < n_old {
                            lemma_chain_push(old_states, ns, i);
                            assert(old_slots[i] == slots_of[i]);
                        }
                    }
                    assert(has_child(*self, states@, slots_of, current as int, jj)) by {
                        assert(slots_of[n_old] == slots_of[current as int].push(jj as usize));
                    }
                    assert forall|i: int, j2: int|
                        0 <= i < head && (i < current || j2 < j) && 0 <= j2 < self.degree(states@[i].node as int) && !state_accepted(
                            states@,
                            i,
                            goal as int,
                            target_distance as int,
                            tol as int,
                        ) && expands(*self, states@, i, j2, goal as int, limit as int, bounds) implies #[trigger] has_child(
                            *self,
                            states@,
                            slots_of,
                            i,
                            j2,
                        ) by {
                        lemma_push_keeps(*self, old_states, old_slots, ns, nsl, i, j2);
                        if !(i == current && j2 == jj) {
                            assert(has_child(*self, old_states, old_slots, i, j2));
                        }
                    }
                    lemma_results_push(old_states, ns, results@, res_idx, head as int, goal as int, target_distance as int, tol as int);
                    assert forall|x: int, y: int| 0 <= x < y < states@.len() implies bfs_before(#[trigger] slots_of[x], #[trigger] slots_of[y]) by {
                        if y < n0 {
                            assert(bfs_sorted(old_states, old_slots));
                            assert(bfs_before(old_slots[x], old_slots[y]));
                        } else {
                            assert(slots_of[y] == old_slots[current as int].push(jj as usize));
                            if x == 0 {
                            } else {
                                let px = old_states[x].prev->0 as int;
                                assert(old_slots[x] == old_slots[px].push(old_slots[x].last()));
                                if px < current {
                                    assert(bfs_before(old_slots[px], old_slots[current as int]));
                                    lemma_before_push(old_slots[px], old_slots[current as int], old_slots[x].last(), jj as usize);
                                } else {
                                    lemma_before_sibling(old_slots[px], old_slots[x].last(), jj as usize);
                                }
                            }
                        }
                    }
                }
            }
            if !finished {
                break;
            }
        }
        proof {
            let ss = res_idx.map_values(|i: int| slots_of[i]);
            let rs = answers_view(results@);
            let sv = states@;
            assert(results_from(sv, results@, res_idx, head as int, goal as int, target_distance as int, tol as int));
            assert forall|i: int| 0 <= i < rs.len() implies wanted(
                *self,
                (#[trigger] rs[i]).0,
                ss[i],
                start as int,
                goal as int,
                target_distance as int,
                tol as int,
                bounds,
            ) && rs[i].1 == prefix_len(*self, rs[i].0, ss[i], ss[i].len() as int) by {
                let si = res_idx[i];
                assert(0 <= si < sv.len());
                lemma_chain_len(sv, si);
                assert(admissible(*self, chain(sv, si), slots_of[si], start as int, goal as int, target_distance as int, tol as int, bounds));
                assert(self.follows(chain(sv, si), slots_of[si]) && self.length_along(chain(sv, si), slots_of[si]) == sv[si].distance);
                lemma_prefix_full(*self, chain(sv, si), slots_of[si]);
                assert(rs[i] == (results@[i].0@, results@[i].1 as int));
            }
            assert forall|i: int, j: int| 0 <= i < j < rs.len() implies bfs_before(#[trigger] ss[i], #[trigger] ss[j]) by {
                assert(res_idx[i] < res_idx[j]);
                assert(bfs_before(slots_of[res_idx[i]], slots_of[res_idx[j]]));
            }
            // Every wanted walk whose entries come before those of every
            // state from `h` on was found.
            let h = head as int;
            assert forall|pw: Seq<usize>, sl: Seq<usize>|
                #[trigger] wanted(*self, pw, sl, start as int, goal as int, target_distance as int, tol as int, bounds)
                    && finished
                    && (forall|c: int| h <= c < sv.len() ==> bfs_before(sl, #[trigger] slots_of[c]))
                    implies exists|ri: int|
                    0 <= ri < rs.len() && #[trigger] rs[ri].0 == pw && ss[ri] == sl && rs[ri].1 == prefix_len(
                        *self,
                        pw,
                        sl,
                        sl.len() as int,
                    ) by {
                lemma_walk_has_state_upto(*self, sv, slots_of, pw, sl, start as int, goal as int, target_distance as int, tol as int, bounds, h, sl.len() as int);
                let s0 = choose|s0: int| 0 <= s0 < h && #[trigger] slots_of[s0] == sl.subrange(0, sl.len() as int) && chain(sv, s0) == pw.subrange(0, sl.len() as int + 1);
                assert(sl.subrange(0, sl.len() as int) =~= sl);
                assert(pw.subrange(0, sl.len() as int + 1) =~= pw);
                lemma_chain_len(sv, s0);
                assert(self.follows(chain(sv, s0), slots_of[s0]) && self.length_along(chain(sv, s0), slots_of[s0]) == sv[s0].distance);
                lemma_prefix_full(*self, pw, sl);
                assert(state_accepted(sv, s0, goal as int, target_distance as int, tol as int));
                let ri = choose|ri: int| 0 <= ri < res_idx.len() && #[trigger] res_idx[ri] == s0;
                assert(rs[ri] == (results@[ri].0@, results@[ri].1 as int));
                assert(ss[ri] == slots_of[s0]);
            }
            if rs.len() == k && k > 0 {
                let last = res_idx[k - 1];
                assert forall|pw: Seq<usize>, sl: Seq<usize>|
                    #[trigger] wanted(*self, pw, sl, start as int, goal as int, target_distance as int, tol as int, bounds)
                        && bfs_before(sl, ss[k - 1]) implies exists|i: int|
                        0 <= i < rs.len() && (#[trigger] rs[i]).0 == pw && ss[i] == sl by {
                    assert forall|c: int| head <= c < sv.len() implies bfs_before(sl, #[trigger] slots_of[c]) by {
                        assert(last < head);
                        assert(bfs_before(slots_of[last], slots_of[c]));
                        lemma_before_trans(sl, slots_of[last], slots_of[c]);
                    }
                }
            }
            assert(ordered_answers(*self, start as int, goal as int, k as int, target_distance as int, tol as int, bounds, rs, ss));
            if rs.len() < k && finished {
                assert(head == sv.len());
                assert forall|pw: Seq<usize>, sl: Seq<usize>|
                    #[trigger] wanted(*self, pw, sl, start as int, goal as int, target_distance as int, tol as int, bounds)
                        implies exists|i: int|
                        0 <= i < rs.len() && (#[trigger] rs[i]).0 == pw && rs[i].1 == prefix_len(*self, pw, sl, sl.len() as int) by {
                    assert(forall|c: int| head <= c < sv.len() ==> bfs_before(sl, #[trigger] slots_of[c]));
                }
            }
            assert(answers_view(results@).len() == results@.len());
        }
        (results, finished)
    }

    /// Closeness-first search: up to `k` routes from `start` to `goal` whose
    /// length lies within `tol` of `target_distance`. Partial routes are
    /// expanded in order of how close their length so far plus the
    /// straight-line distance on to `goal` (`goal_bounds`) comes to the
    /// target. See `special_dijkstra_with_status` for which routes are
    /// found.
    pub fn special_dijkstra(
        &self,
        start: usize,
        goal: usize,
        k: usize,
        target_distance: u64,
        tol: u64,
        goal_bounds: &Vec<u64>,
    ) -> (r: Vec<(Vec<usize>, u64)>)
        requires
            self.wf(),
            start < self.node_count(),
            goal < self.node_count(),
            goal_bounds@.len() == self.node_count(),
            target_distance + tol <= u64::MAX,
        ensures
            r@.len() <= k,
            forall|i: int|
                0 <= i < r@.len() ==> window_route(
                    *self,
                    (#[trigger] r@[i]).0@,
                    r@[i].1 as int,
                    start as int,
                    goal as int,
                    target_distance as int,
                    tol as int,
                ),
            sought_answers(*self, start as int, goal as int, target_distance as int, tol as int, answers_view(r@)),
            r@.len() < k ==> crowded_search(*self, start as int, goal as int, (target_distance + tol) as int, MAX_HEURISTIC_STATES as int) || forall|p: Seq<usize>, slots: Seq<usize>|
                #[trigger] sought(
                    *self,
                    p,
                    slots,
                    start as int,
                    goal as int,
                    target_distance as int,
                    tol as int,
                ) ==> exists|i: int|
                    0 <= i < r@.len() && (#[trigger] r@[i]).0@ == p && r@[i].1 == prefix_len(
                        *self,
                        p,
                        slots,
                        slots.len() as int,
                    ),
    {
        let r = self.special_dijkstra_with_status(start, goal, k, target_distance, tol, goal_bounds, MAX_HEURISTIC_STATES);
        r.0
    }

    /// The closeness-first search, with whether it ran to the end. It stops
    /// early only where it holds `max_states` partial routes.
    /// Where it ran to the end and found fewer than `k` routes, every sought
    /// walk (see `sought`) is among them, with its length.
    pub fn special_dijkstra_with_status(
        &self,
        start: usize,
        goal: usize,
        k: usize,
        target_distance: u64,
        tol: u64,
        goal_bounds: &Vec<u64>,
        max_states: usize,
    ) -> (r: (Vec<(Vec<usize>, u64)>, bool))
        requires
            max_states >= 1,
            self.wf(),
            start < self.node_count(),
            goal < self.node_count(),
            goal_bounds@.len() == self.node_count(),
            target_distance + tol <= u64::MAX,
        ensures
            r.0@.len() <= k,
            forall|i: int|
                0 <= i < r.0@.len() ==> window_route(
                    *self,
                    (#[trigger] r.0@[i]).0@,
                    r.0@[i].1 as int,
                    start as int,
                    goal as int,
                    target_distance as int,
                    tol as int,
                ),
            r.1 && r.0@.len() < k ==> forall|p: Seq<usize>, slots: Seq<usize>|
                #[trigger] sought(
                    *self,
                    p,
                    slots,
                    start as int,
                    goal as int,
                    target_distance as int,
                    tol as int,
                ) ==> exists|i: int|
                    0 <= i < r.0@.len() && (#[trigger] r.0@[i]).0@ == p && r.0@[i].1 == prefix_len(
                        *self,
                        p,
                        slots,
                        slots.len() as int,
                    ),
            !r.1 ==> crowded_search(*self, start as int, goal as int, (target_distance + tol) as int, max_states as int),
            sought_answers(*self, start as int, goal as int, target_distance as int, tol as int, answers_view(r.0@)),
    {
        let limit: u64 = target_distance + tol;
        let mut results: Vec<(Vec<usize>, u64)> = Vec::new();
        if k == 0 {
            proof {
                let ss = Seq::<Seq<usize>>::empty();
                assert(answers_view(results@) =~= Seq::<(Seq<usize>, int)>::empty());
                assert(ss.len() == answers_view(results@).len());
            }
            return (results, true);
        }
        let mut states: Vec<SpecialDijkstraState> = Vec::new();
        states.push(SearchState { node: start, prev: None, distance: 0 });
        let ghost mut slots_of: Seq<Seq<usize>> = seq![Seq::<usize>::empty()];
        let ghost mut done: Seq<bool> = seq![false];
        proof {
            assert(chain(states@, 0) == seq![start]);
            assert(self.follows(seq![start], Seq::<usize>::empty()));
            assert(self.length_along(seq![start], Seq::<usize>::empty()) == 0);
            assert(state_ok(*self, states@, 0, start as int, limit as int));
        }
        let mut frontier: Vec<HeapItem> = Vec::new();
        frontier.push(HeapItem { state_idx: 0, priority: closeness(0, goal_bounds[start], target_distance) });
        proof {
            assert(frontier@[0].state_idx == 0);
        }
        let ghost mut res_idx: Seq<int> = Seq::empty();
        let mut finished = true;
        while frontier.len() > 0
            invariant_except_break
                finished,
                results@.len() < k,
                forall|i: int, j: int|
                    0 <= i < states@.len() && done[i] && 0 <= j < self.degree(states@[i].node as int) && tries(
                        *self,
                        states@,
                        i,
                        j,
                        goal as int,
                        limit as int,
                    ) ==> #[trigger] has_child(*self, states@, slots_of, i, j),
            invariant
                self.wf(),
                start < self.node_count(),
                goal < self.node_count(),
                goal_bounds@.len() == self.node_count(),
                limit == target_distance + tol,
                1 <= states@.len() <= max_states,
                taken_results(states@, done, results@, res_idx, goal as int, target_distance as int, tol as int),
                states@[0] == (SearchState { node: start, prev: None, distance: 0 }),
                slots_of[0] == Seq::<usize>::empty(),
                arena_sound(*self, states@, start as int, limit as int),
                slots_exact(*self, states@, slots_of),
                done.len() == states@.len(),
                forall|t: int| 0 <= t < frontier@.len() ==> (#[trigger] frontier@[t]).state_idx < states@.len(),
                forall|i: int| 0 <= i < states@.len() ==> #[trigger] done[i] || in_frontier(frontier@, i),
                forall|i: int|
                    0 <= i < states@.len() ==> #[trigger] tried_walk(
                        *self,
                        chain(states@, i),
                        slots_of[i],
                        start as int,
                        goal as int,
                        limit as int,
                    ),
                forall|i: int|
                    1 <= i < states@.len() ==> (#[trigger] states@[i]).prev is Some && slots_of[i]
                        == slots_of[states@[i].prev->0 as int].push(slots_of[i].last()),
                forall|x: int, y: int|
                    1 <= x < y < states@.len() && #[trigger] states@[x].prev == #[trigger] states@[y].prev
                        ==> slots_of[x].last() < slots_of[y].last(),
                forall|b: int| 1 <= b < states@.len() ==> done[(#[trigger] states@[b]).prev->0 as int],
                forall|t1: int, t2: int|
                    0 <= t1 < t2 < frontier@.len() ==> (#[trigger] frontier@[t1]).state_idx != (#[trigger] frontier@[t2]).state_idx,
                forall|t: int| 0 <= t < frontier@.len() ==> !done[(#[trigger] frontier@[t]).state_idx as int],
                !finished ==> crowded_search(*self, start as int, goal as int, limit as int, max_states as int),
                results@.len() <= k,
                forall|i: int|
                    0 <= i < results@.len() ==> window_route(
                        *self,
                        (#[trigger] results@[i]).0@,
                        results@[i].1 as int,
                        start as int,
                        goal as int,
                        target_distance as int,
                        tol as int,
                    ),
                forall|i: int|
                    0 <= i < states@.len() && done[i] && #[trigger] state_accepted(
                        states@,
                        i,
                        goal as int,
                        target_distance as int,
                        tol as int,
                    ) ==> exists|ri: int|
                        0 <= ri < results@.len() && (#[trigger] results@[ri]).0@ == chain(states@, i)
                            && results@[ri].1 == states@[i].distance,
            ensures
                !finished ==> crowded_search(*self, start as int, goal as int, limit as int, max_states as int),
                finished && results@.len() < k ==> frontier@.len() == 0,
                finished && results@.len() < k ==> forall|i: int, j: int|
                        0 <= i < states@.len() && done[i] && 0 <= j < self.degree(states@[i].node as int) && tries(
                            *self,
                            states@,
                            i,
                            j,
                            goal as int,
                            limit as int,
                        ) ==> #[trigger] has_child(*self, states@, slots_of, i, j),
            decreases max_states - states@.len(), frontier@.len(),
        {
            let ghost before = frontier@;
            let item = pop_closest(&mut frontier);
            let ghost pi = choose|i: int| 0 <= i < before.len() && item == before[i] && frontier@ == before.remove(i);
            proof {
                assert(item.state_idx < states@.len());
                assert forall|t: int| 0 <= t < frontier@.len() implies (#[trigger] frontier@[t]).state_idx
                    < states@.len() by {
                    if t < pi {
                        assert(frontier@[t] == before[t]);
                    } else {
                        assert(frontier@[t] == before[t + 1]);
                    }
                }
            }
            let current = item.state_idx;
            let node = states[current].node;
            let so_far = states[current].distance;
            let ghost done0 = done;
            proof {
                assert(state_ok(*self, states@, current as int, start as int, limit as int));
                assert(!done0[current as int]) by {
                    assert(before[pi].state_idx == current);
                }
                done = done.update(current as int, true);
                lemma_taken_mark(states@, done0, results@, res_idx, current as int, goal as int, target_distance as int, tol as int);
                assert forall|t1: int, t2: int|
                    0 <= t1 < t2 < frontier@.len() implies (#[trigger] frontier@[t1]).state_idx != (#[trigger] frontier@[t2]).state_idx by {
                    let o1 = if t1 < pi { t1 } else { t1 + 1 };
                    let o2 = if t2 < pi { t2 } else { t2 + 1 };
                    assert(frontier@[t1] == before[o1]);
                    assert(frontier@[t2] == before[o2]);
                }
                assert forall|t: int| 0 <= t < frontier@.len() implies !done[(#[trigger] frontier@[t]).state_idx as int] by {
                    let o = if t < pi { t } else { t + 1 };
                    assert(frontier@[t] == before[o]);
                    if o < pi {
                        assert(before[o].state_idx != before[pi].state_idx);
                    } else {
                        assert(before[pi].state_idx != before[o].state_idx);
                    }
                }
                assert forall|b: int| 1 <= b < states@.len() implies done[(#[trigger] states@[b]).prev->0 as int] by {
                    assert(done0[states@[b].prev->0 as int]);
                }
                assert forall|b: int| 1 <= b < states@.len() && (#[trigger] states@[b]).prev == Some(current) implies slots_of[b].last() < 0 by {
                    assert(done0[states@[b].prev->0 as int]);
                }
                assert forall|i: int| 0 <= i < states@.len() implies #[trigger] done[i] || in_frontier(frontier@, i) by {
                    if i != current && !done0[i] {
                        assert(in_frontier(before, i));
                        let t = choose|t: int| 0 <= t < before.len() && (#[trigger] before[t]).state_idx == i;
                        assert(t != pi);
                        if t < pi {
                            assert(frontier@[t] == before[t]);
                        } else {
                            assert(frontier@[t - 1] == before[t]);
                        }
                    }
                }
            }
            if node == goal && within(so_far, target_distance, tol) {
                let path = trace(&states, current);
                proof {
                    lemma_chain_len(states@, current as int);
                }
                let ghost r0 = results@;
                results.push((path, so_far));
                proof {
                    lemma_taken_record(states@, done0, done, r0, results@, res_idx, current as int, goal as int, target_distance as int, tol as int);
                    res_idx = res_idx.push(current as int);
                    assert(results@[r0.len() as int].0@ == chain(states@, current as int));
                    assert forall|i: int|
                        0 <= i < states@.len() && done[i] && #[trigger] state_accepted(
                            states@,
                            i,
                            goal as int,
                            target_distance as int,
                            tol as int,
                        ) implies exists|ri: int|
                            0 <= ri < results@.len() && (#[trigger] results@[ri]).0@ == chain(states@, i)
                                && results@[ri].1 == states@[i].distance by {
                        if i != current {
                            let ri = choose|ri: int|
                                0 <= ri < r0.len() && (#[trigger] r0[ri]).0@ == chain(states@, i)
                                    && r0[ri].1 == states@[i].distance;
                            assert(results@[ri] == r0[ri]);
                        } else {
                            assert(results@[r0.len() as int].0@ == chain(states@, i));
                        }
                    }
                }
                if results.len() >= k {
                    break;
                }
            } else {
                proof {
                    assert forall|i: int|
                        0 <= i < states@.len() && done[i] && #[trigger] state_accepted(
                            states@,
                            i,
                            goal as int,
                            target_distance as int,
                            tol as int,
                        ) implies exists|ri: int|
                            0 <= ri < results@.len() && (#[trigger] results@[ri]).0@ == chain(states@, i)
                                && results@[ri].1 == states@[i].distance by {
                        assert(i != current);
                        assert(done0[i]);
                    }
                }
            }
            let ghost len0 = states@.len();
            let ghost fl0 = frontier@.len();
            let mut j: usize = 0;
            while j < self.adj()[node].len()
                invariant_except_break
                    finished,
                    forall|i: int, j2: int|
                        0 <= i < states@.len() && done[i] && (i != current || j2 < j) && 0 <= j2 < self.degree(states@[i].node as int) && tries(
                            *self,
                            states@,
                            i,
                            j2,
                            goal as int,
                            limit as int,
                        ) ==> #[trigger] has_child(*self, states@, slots_of, i, j2),
                invariant
                    self.wf(),
                    goal_bounds@.len() == self.node_count(),
                    limit == target_distance + tol,
                    current < len0 <= states@.len() <= max_states,
                    taken_results(states@, done, results@, res_idx, goal as int, target_distance as int, tol as int),
                    node == states@[current as int].node,
                    node < self.node_count(),
                    so_far == states@[current as int].distance,
                    so_far <= limit,
                    states@[0] == (SearchState { node: start, prev: None, distance: 0 }),
                    slots_of[0] == Seq::<usize>::empty(),
                    arena_sound(*self, states@, start as int, limit as int),
                    slots_exact(*self, states@, slots_of),
                    done.len() == states@.len(),
                    done[current as int],
                    forall|t: int| 0 <= t < frontier@.len() ==> (#[trigger] frontier@[t]).state_idx < states@.len(),
                    forall|i: int| 0 <= i < states@.len() ==> #[trigger] done[i] || in_frontier(frontier@, i),
                    forall|i: int|
                        0 <= i < states@.len() ==> #[trigger] tried_walk(
                            *self,
                            chain(states@, i),
                            slots_of[i],
                            start as int,
                            goal as int,
                            limit as int,
                        ),
                    forall|i: int|
                        1 <= i < states@.len() ==> (#[trigger] states@[i]).prev is Some && slots_of[i]
                            == slots_of[states@[i].prev->0 as int].push(slots_of[i].last()),
                    forall|x: int, y: int|
                        1 <= x < y < states@.len() && #[trigger] states@[x].prev == #[trigger] states@[y].prev
                            ==> slots_of[x].last() < slots_of[y].last(),
                    forall|b: int| 1 <= b < states@.len() ==> done[(#[trigger] states@[b]).prev->0 as int],
                    forall|t1: int, t2: int|
                        0 <= t1 < t2 < frontier@.len() ==> (#[trigger] frontier@[t1]).state_idx != (#[trigger] frontier@[t2]).state_idx,
                    forall|t: int| 0 <= t < frontier@.len() ==> !done[(#[trigger] frontier@[t]).state_idx as int],
                    !finished ==> crowded_search(*self, start as int, goal as int, limit as int, max_states as int),
                    forall|b: int| 1 <= b < states@.len() && (#[trigger] states@[b]).prev == Some(current) ==> slots_of[b].last() < j,
                    j <= self.degree(node as int),
                    len0 <= states@.len(),
                    frontier@.len() + len0 == fl0 + states@.len(),
                    results@.len() <= k,
                    forall|i: int|
                        0 <= i < results@.len() ==> window_route(
                            *self,
                            (#[trigger] results@[i]).0@,
                            results@[i].1 as int,
                            start as int,
                            goal as int,
                            target_distance as int,
                            tol as int,
                        ),
                    forall|i: int|
                        0 <= i < states@.len() && done[i] && #[trigger] state_accepted(
                            states@,
                            i,
                            goal as int,
                            target_distance as int,
                            tol as int,
                        ) ==> exists|ri: int|
                            0 <= ri < results@.len() && (#[trigger] results@[ri]).0@ == chain(states@, i)
                                && results@[ri].1 == states@[i].distance,
                ensures
                    !finished ==> crowded_search(*self, start as int, goal as int, limit as int, max_states as int),
                    finished ==> forall|i: int, j: int|
                        0 <= i < states@.len() && done[i] && 0 <= j < self.degree(states@[i].node as int) && tries(
                            *self,
                            states@,
                            i,
                            j,
                            goal as int,
                            limit as int,
                        ) ==> #[trigger] has_child(*self, states@, slots_of, i, j),
                decreases self.degree(node as int) - j,
            {
                let neighbor = self.adj()[node][j];
                let next = neighbor.node_index;
                proof {
                    assert(neighbor == self.entry(node as int, j as int));
                }
                let ghost jj = j as int;
                j += 1;
                let len = neighbor.edge_data.length_mm;
                if in_ancestry_dijkstra(states.as_slice(), current, next, MAX_LOOKBACK) && next != goal {
                    continue;
                }
                if len > limit - so_far {
                    continue;
                }
                if states.len() >= max_states {
                    proof {
                        let ws = Seq::new(states@.len() as nat, |i: int| (chain(states@, i), slots_of[i]));
                        assert forall|i: int| 0 <= i < ws.len() implies tried_walk(
                            *self,
                            (#[trigger] ws[i]).0,
                            ws[i].1,
                            start as int,
                            goal as int,
                            limit as int,
                        ) by {
                            assert(tried_walk(*self, chain(states@, i), slots_of[i], start as int, goal as int, limit as int));
                        }
                        assert forall|i: int, i2: int| 0 <= i < i2 < ws.len() implies #[trigger] ws[i] != #[trigger] ws[i2] by {
                            lemma_slots_distinct_by_parent(states@, slots_of, i, i2);
                        }
                        assert(ws.len() == max_states);
                    }
                    finished = false;
                    break;
                }
                let new_distance = so_far + len;
                let priority = closeness(so_far, goal_bounds[next], target_distance);
                let ghost old_states = states@;
                let ghost old_slots = slots_of;
                let ghost old_front = frontier@;
                let ns = SearchState { node: next, prev: Some(current), distance: new_distance };
                let ghost nsl = slots_of[current as int].push(jj as usize);
                let ghost old_done = done;
                proof {
                    lemma_arena_extend(*self, states@, start as int, limit as int, current as int, jj);
                    lemma_chain_len(states@, current as int);
                    self.lemma_follows_push(chain(states@, current as int), slots_of[current as int], jj as usize);
                    assert(tries(*self, states@, current as int, jj, goal as int, limit as int));
                    lemma_child_tried(*self, states@, slots_of, current as int, jj, start as int, goal as int, limit as int);
                }
                states.push(ns);
                frontier.push(HeapItem { state_idx: states.len() - 1, priority });
                proof {
                    slots_of = slots_of.push(nsl);
                    lemma_taken_push(old_states, done, ns, results@, res_idx, goal as int, target_distance as int, tol as int);
                    done = done.push(false);
                    let n_old = old_states.len() as int;
                    assert(nsl.last() == jj as usize);
                    assert forall|i: int|
                        0 <= i < states@.len() implies #[trigger] tried_walk(
                            *self,
                            chain(states@, i),
                            slots_of[i],
                            start as int,
                            goal as int,
                            limit as int,
                        ) by {
                        if i < n_old {
                            lemma_chain_push(old_states, ns, i);
                            assert(tried_walk(*self, chain(old_states, i), old_slots[i], start as int, goal as int, limit as int));
                        } else {
                            lemma_chain_push(old_states, ns, current as int);
                        }
                    }
                    assert forall|i: int|
                        1 <= i < states@.len() implies (#[trigger] states@[i]).prev is Some && slots_of[i]
                            == slots_of[states@[i].prev->0 as int].push(slots_of[i].last()) by {
                        if i < n_old {
                            assert(states@[i] == old_states[i]);
                            assert(old_states[i].prev is Some && old_slots[i] == old_slots[old_states[i].prev->0 as int].push(old_slots[i].last()));
                        }
                    }
                    assert forall|x: int, y: int|
                        1 <= x < y < states@.len() && #[trigger] states@[x].prev == #[trigger] states@[y].prev
                            implies slots_of[x].last() < slots_of[y].last() by {
                        assert(states@[x] == old_states[x]);
                        if y < n_old {
                            assert(states@[y] == old_states[y]);
                        } else {
                            assert(old_states[x].prev == Some(current));
                        }
                    }
                    assert forall|b: int| 1 <= b < states@.len() implies done[(#[trigger] states@[b]).prev->0 as int] by {
                        if b < n_old {
                            assert(states@[b] == old_states[b]);
                            assert(old_done[old_states[b].prev->0 as int]);
                        }
                    }
                    assert forall|t1: int, t2: int|
                        0 <= t1 < t2 < frontier@.len() implies (#[trigger] frontier@[t1]).state_idx != (#[trigger] frontier@[t2]).state_idx by {
                        assert(frontier@[t1] == old_front[t1]);
                        if t2 < old_front.len() {
                            assert(frontier@[t2] == old_front[t2]);
                        }
                    }
                    assert forall|t: int| 0 <= t < frontier@.len() implies !done[(#[trigger] frontier@[t]).state_idx as int] by {
                        if t < old_front.len() {
                            assert(frontier@[t] == old_front[t]);
                        }
                    }
                    assert forall|b: int| 1 <= b < states@.len() && (#[trigger] states@[b]).prev == Some(current) implies slots_of[b].last() < j by {
                        if b < n_old {
                            assert(states@[b] == old_states[b]);
                        }
                    }
                    lemma_chain_push(old_states, ns, current as int);
                    assert(chain(states@, n_old) == chain(old_states, current as int).push(next));
                    assert(states@[0] == old_states[0]);
                    assert forall|i: int| 0 <= i < states@.len() implies self.follows(chain(states@, i), #[trigger] slots_of[i])
                        && self.length_along(chain(states@, i), slots_of[i]) == states@[i].distance by {
                        if i < n_old {
                            lemma_chain_push(old_states, ns, i);
                            assert(old_slots[i] == slots_of[i]);
                        }
                    }
                    assert(has_child(*self, states@, slots_of, current as int, jj)) by {
                        assert(slots_of[n_old] == slots_of[current as int].push(jj as usize));
                    }
                    assert forall|t: int| 0 <= t < frontier@.len() implies (#[trigger] frontier@[t]).state_idx < states@.len() by {
                        if t < old_front.len() {
                            assert(frontier@[t] == old_front[t]);
                        }
                    }
                    assert forall|i: int| 0 <= i < states@.len() implies #[trigger] done[i] || in_frontier(frontier@, i) by {
                        if i == n_old {
                            assert(frontier@[old_front.len() as int].state_idx == i);
                        } else if !done[i] {
                            assert(done[i] == false);
                            assert(in_frontier(old_front, i));
                            let t = choose|t: int| 0 <= t < old_front.len() && (#[trigger] old_front[t]).state_idx == i;
                            assert(frontier@[t] == old_front[t]);
                        }
                    }
                    assert forall|i: int, j2: int|
                        0 <= i < states@.len() && done[i] && (i != current || j2 < j) && 0 <= j2 < self.degree(states@[i].node as int) && tries(
                            *self,
                            states@,
                            i,
                            j2,
                            goal as int,
                            limit as int,
                        ) implies #[trigger] has_child(*self, states@, slots_of, i, j2) by {
                        if i < n_old {
                            lemma_push_keeps(*self, old_states, old_slots, ns, nsl, i, j2);
                            if !(i == current && j2 == jj) {
                                assert(has_child(*self, old_states, old_slots, i, j2));
                            }
                        }
                    }
                    assert forall|i: int|
                        0 <= i < states@.len() && done[i] && #[trigger] state_accepted(
                            states@,
                            i,
                            goal as int,
                            target_distance as int,
                            tol as int,
                        ) implies exists|ri: int|
                            0 <= ri < results@.len() && (#[trigger] results@[ri]).0@ == chain(states@, i)
                                && results@[ri].1 == states@[i].distance by {
                        if i < n_old {
                            lemma_push_keeps(*self, old_states, old_slots, ns, nsl, i, 0);
                            assert(state_accepted(old_states, i, goal as int, target_distance as int, tol as int));
                        }
                    }
                    assert forall|i: int|
                        0 <= i < results@.len() implies window_route(
                            *self,
                            (#[trigger] results@[i]).0@,
                            results@[i].1 as int,
                            start as int,
                            goal as int,
                            target_distance as int,
                            tol as int,
                        ) by {}
                }
            }
            if !finished {
                break;
            }
        }
        proof {
            if finished && results@.len() < k {
                assert forall|i: int| 0 <= i < states@.len() implies #[trigger] done[i] by {
                    if !done[i] {
                        assert(in_frontier(frontier@, i));
                    }
                }
                assert forall|p: Seq<usize>, slots: Seq<usize>|
                    #[trigger] sought(
                        *self,
                        p,
                        slots,
                        start as int,
                        goal as int,
                        target_distance as int,
                        tol as int,
                    ) implies exists|i: int|
                        0 <= i < results@.len() && (#[trigger] results@[i]).0@ == p && results@[i].1 == prefix_len(
                            *self,
                            p,
                            slots,
                            slots.len() as int,
                        ) by {
                    lemma_walk_has_state_tried(
                        *self,
                        states@,
                        slots_of,
                        p,
                        slots,
                        start as int,
                        goal as int,
                        target_distance as int,
                        tol as int,
                        slots.len() as int,
                    );
                    let s = choose|s: int|
                        0 <= s < states@.len() && #[trigger] slots_of[s] == slots.subrange(0, slots.len() as int)
                            && chain(states@, s) == p.subrange(0, slots.len() as int + 1);
                    assert(p.subrange(0, slots.len() as int + 1) =~= p);
                    assert(slots.subrange(0, slots.len() as int) =~= slots);
                    lemma_chain_len(states@, s);
                    assert(done[s]);
                    assert(state_accepted(states@, s, goal as int, target_distance as int, tol as int));
                }
            }
        }
        proof {
            let ss = res_idx.map_values(|i: int| slots_of[i]);
            let rs = answers_view(results@);
            let sv = states@;
            assert forall|i: int| 0 <= i < rs.len() implies sought(
                *self,
                (#[trigger] rs[i]).0,
                ss[i],
                start as int,
                goal as int,
                target_distance as int,
                tol as int,
            ) && rs[i].1 == prefix_len(*self, rs[i].0, ss[i], ss[i].len() as int) by {
                let si = res_idx[i];
                lemma_chain_len(sv, si);
                assert(tried_walk(*self, chain(sv, si), slots_of[si], start as int, goal as int, limit as int));
                assert(self.follows(chain(sv, si), slots_of[si]) && self.length_along(chain(sv, si), slots_of[si]) == sv[si].distance);
                lemma_prefix_full(*self, chain(sv, si), slots_of[si]);
                assert(rs[i] == (results@[i].0@, results@[i].1 as int));
            }
            assert forall|i: int, j: int| 0 <= i < j < rs.len() implies #[trigger] ss[i] != #[trigger] ss[j] by {
                lemma_slots_distinct_by_parent(sv, slots_of, res_idx[i], res_idx[j]);
            }
            assert(ss.len() == rs.len());
        }
        (results, finished)
    }
}

} // verus!
