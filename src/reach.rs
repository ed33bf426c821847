//! Plain reachability search with the fewest edges.
use vstd::prelude::*;
use crate::graph::Graph;

verus! {

/// How many entries of `s` are still `false`.
pub open spec fn count_false(s: Seq<bool>) -> nat
    decreases s.len(),
{
    if s.len() == 0 {
        0
    } else {
        count_false(s.drop_last()) + if s.last() {
            0nat
        } else {
            1nat
        }
    }
}

pub(crate) proof fn lemma_count_false_update(s: Seq<bool>, i: int)
    requires
        0 <= i < s.len(),
        !s[i],
    ensures
        count_false(s.update(i, true)) + 1 == count_false(s),
    decreases s.len(),
{
    let s2 = s.update(i, true);
    if i == s.len() - 1 {
        assert(s2.drop_last() =~= s.drop_last());
    } else {
        assert(s2.drop_last() =~= s.drop_last().update(i, true));
        lemma_count_false_update(s.drop_last(), i);
    }
}

/// Every node of a walk from a marked node stays among the marked nodes,
/// where every marked node has all of its neighbours marked.
proof fn lemma_walk_stays_marked(g: Graph, marked: Seq<bool>, p: Seq<usize>, slots: Seq<usize>, t: int)
    requires
        g.wf(),
        marked.len() == g.node_count(),
        g.follows(p, slots),
        marked[p[0] as int],
        forall|u: int, j: int|
            0 <= u < g.node_count() && marked[u] && 0 <= j < g.degree(u) ==> marked[#[trigger] g.entry(
                u,
                j,
            ).node_index as int],
        0 <= t < p.len(),
    ensures
        marked[p[t] as int],
        p[t] < g.node_count(),
    decreases t,
{
    if t > 0 {
        lemma_walk_stays_marked(g, marked, p, slots, t - 1);
        assert(slots[t - 1] < g.degree(p[t - 1] as int));
        assert(g.entry(p[t - 1] as int, slots[t - 1] as int).node_index == p[t]);
    }
}

impl Graph {
    /// Along a walk from `start`, either every node so far has been taken
    /// from the queue with a level no higher than its step, or some node
    /// still queued has a level no higher than its step.
    proof fn lemma_level_bound(
        &self,
        start: usize,
        visited: Seq<bool>,
        queue: Seq<usize>,
        pos: Seq<int>,
        level: Seq<int>,
        head: int,
        q: Seq<usize>,
        sl: Seq<usize>,
        t: int,
    )
        requires
            self.wf(),
            visited.len() == self.node_count(),
            pos.len() == self.node_count(),
            level.len() == self.node_count(),
            0 <= head < queue.len(),
            queue[0] == start,
            visited[start as int],
            level[start as int] == 0,
            pos[start as int] == 0,
            forall|v: int| 0 <= v < self.node_count() && #[trigger] visited[v] ==> 0 <= pos[v] < queue.len() && queue[pos[v]] == v,
            forall|tt: int, j: int|
                0 <= tt < head && 0 <= j < self.degree(queue[tt] as int) ==> visited[#[trigger] self.entry(
                    queue[tt] as int,
                    j,
                ).node_index as int],
            forall|tt: int, j: int|
                0 <= tt < head && 0 <= j < self.degree(queue[tt] as int) ==> level[#[trigger] self.entry(
                    queue[tt] as int,
                    j,
                ).node_index as int] <= level[queue[tt] as int] + 1,
            self.follows(q, sl),
            q[0] == start,
            0 <= t < q.len(),
        ensures
            (forall|s: int| 0 <= s <= t ==> visited[#[trigger] q[s] as int] && pos[q[s] as int] < head && level[q[s] as int] <= s)
                || (exists|t2: int| 0 <= t2 <= t && visited[q[t2] as int] && pos[q[t2] as int] >= head && level[q[t2] as int] <= t2),
        decreases t,
    {
        self.lemma_follows_in_range(q, sl);
        if t == 0 {
            if head == 0 {
                assert(visited[q[0] as int] && pos[q[0] as int] >= head && level[q[0] as int] <= 0);
            }
        } else {
            self.lemma_level_bound(start, visited, queue, pos, level, head, q, sl, t - 1);
            if forall|s: int| 0 <= s <= t - 1 ==> visited[#[trigger] q[s] as int] && pos[q[s] as int] < head && level[q[s] as int] <= s {
                let u = q[t - 1];
                assert(visited[q[t - 1] as int] && pos[q[t - 1] as int] < head && level[q[t - 1] as int] <= t - 1);
                let tt = pos[u as int];
                assert(queue[tt] == u);
                assert(sl[t - 1] < self.degree(q[t - 1] as int));
                assert(self.entry(queue[tt] as int, sl[t - 1] as int).node_index == q[t]);
                assert(visited[q[t] as int]);
                assert(level[q[t] as int] <= t);
                if pos[q[t] as int] >= head {
                    assert(visited[q[t] as int] && pos[q[t] as int] >= head && level[q[t] as int] <= t);
                } else {
                    assert forall|s: int| 0 <= s <= t implies visited[#[trigger] q[s] as int] && pos[q[s] as int] < head && level[q[s] as int] <= s by {
                        if s < t {
                            assert(visited[q[s] as int] && pos[q[s] as int] < head && level[q[s] as int] <= s);
                        }
                    }
                }
            }
        }
    }

    /// When `goal` is taken from the queue, no walk from `start` to it has
    /// fewer edges than its level.
    proof fn lemma_fewest(
        &self,
        start: usize,
        goal: usize,
        visited: Seq<bool>,
        pred: Seq<usize>,
        queue: Seq<usize>,
        pos: Seq<int>,
        pslot: Seq<usize>,
        level: Seq<int>,
        head: int,
    )
        requires
            self.wf(),
            start < self.node_count(),
            goal < self.node_count(),
            self.marks_ok(start, visited, pred, queue, pos, pslot),
            0 <= head < queue.len(),
            queue[head] == goal,
            level.len() == self.node_count(),
            level[start as int] == 0,
            forall|t1: int, t2: int| 0 <= t1 <= t2 < queue.len() ==> level[#[trigger] queue[t1] as int] <= level[#[trigger] queue[t2] as int],
            forall|t: int, j: int|
                0 <= t < head && 0 <= j < self.degree(queue[t] as int) ==> visited[#[trigger] self.entry(
                    queue[t] as int,
                    j,
                ).node_index as int],
            forall|t: int, j: int|
                0 <= t < head && 0 <= j < self.degree(queue[t] as int) ==> level[#[trigger] self.entry(
                    queue[t] as int,
                    j,
                ).node_index as int] <= level[queue[t] as int] + 1,
        ensures
            forall|q: Seq<usize>|
                #[trigger] self.is_walk(q) && q[0] == start && q.last() == goal ==> level[goal as int] + 1 <= q.len(),
    {
        assert(pos[start as int] == 0) by {
            assert(queue[0] == start);
        }
        assert forall|q: Seq<usize>| #[trigger] self.is_walk(q) && q[0] == start && q.last() == goal implies level[goal as int] + 1 <= q.len() by {
            let sl = choose|sl: Seq<usize>| self.follows(q, sl);
            self.lemma_follows_in_range(q, sl);
            self.lemma_level_bound(start, visited, queue, pos, level, head, q, sl, q.len() - 1);
            if forall|s: int| 0 <= s <= q.len() - 1 ==> visited[#[trigger] q[s] as int] && pos[q[s] as int] < head && level[q[s] as int] <= s {
                assert(visited[q[q.len() - 1] as int] && pos[q[q.len() - 1] as int] < head);
                assert(queue[pos[goal as int]] == goal);
                assert(pos[queue[head] as int] == head);
            } else {
                let t2 = choose|t2: int| 0 <= t2 <= q.len() - 1 && visited[q[t2] as int] && pos[q[t2] as int] >= head && level[q[t2] as int] <= t2;
                assert(queue[pos[q[t2] as int]] == q[t2]);
                assert(level[queue[head] as int] <= level[queue[pos[q[t2] as int]] as int]);
            }
        }
    }

    /// Plain reachability search: a walk from `start` to `goal` with the
    /// fewest edges, the first that a breadth-first search finds, or `None`
    /// where `goal` cannot be reached.
    #[verifier::rlimit(100)]
    pub fn find_path(&self, start: usize, goal: usize) -> (r: Option<Vec<usize>>)
        requires
            self.wf(),
            start < self.node_count(),
            goal < self.node_count(),
        ensures
            start == goal ==> (r matches Some(p) && p@ == seq![start]),
            (r matches Some(p) ==> p@.len() >= 1 && p@[0] == start && p@.last() == goal
                && self.is_walk(p@)),
            r is None <==> !self.reachable(start as int, goal as int),
            r matches Some(p) ==> forall|q: Seq<usize>|
                #[trigger] self.is_walk(q) && q[0] == start && q.last() == goal ==> p@.len() <= q.len(),
    {
        if start == goal {
            let v = vec![start];
            proof {
                assert(self.follows(v@, Seq::<usize>::empty()));
                assert(self.is_walk(v@));
                assert forall|q: Seq<usize>| #[trigger] self.is_walk(q) && q[0] == start && q.last() == goal implies v@.len() <= q.len() by {
                    let sl = choose|sl: Seq<usize>| self.follows(q, sl);
                }
            }
            return Some(v);
        }
        let n = self.nodes().len();
        let mut visited: Vec<bool> = Vec::new();
        let mut pred: Vec<usize> = Vec::new();
        let mut i: usize = 0;
        while i < n
            invariant
                i <= n,
                visited@.len() == i,
                pred@.len() == i,
                forall|v: int| 0 <= v < i ==> !(#[trigger] visited@[v]),
            decreases n - i,
        {
            visited.push(false);
            pred.push(0);
            i += 1;
        }
        visited.set(start, true);
        let mut queue: Vec<usize> = Vec::new();
        queue.push(start);
        let ghost mut pos: Seq<int> = Seq::new(n as nat, |v: int| 0);
        let ghost mut pslot: Seq<usize> = Seq::new(n as nat, |v: int| 0usize);
        let ghost mut level: Seq<int> = Seq::new(n as nat, |v: int| 0);
        let mut head: usize = 0;
        proof {
            assert(queue@[0] == start);
        }
        while head < queue.len()
            invariant
                self.wf(),
                n == self.node_count(),
                start < n,
                goal < n,
                start != goal,
                head <= queue@.len(),
                self.marks_ok(start, visited@, pred@, queue@, pos, pslot),
                forall|t: int, j: int|
                    0 <= t < head && 0 <= j < self.degree(queue@[t] as int) ==> visited@[#[trigger] self.entry(
                        queue@[t] as int,
                        j,
                    ).node_index as int],
                forall|t: int| 0 <= t < head ==> #[trigger] queue@[t] != goal,
                level.len() == n,
                level[start as int] == 0,
                forall|v: int| 0 <= v < n && #[trigger] visited@[v] && v != start ==> level[v] == level[pred@[v] as int] + 1,
                forall|t1: int, t2: int| 0 <= t1 <= t2 < queue@.len() ==> level[#[trigger] queue@[t1] as int] <= level[#[trigger] queue@[t2] as int],
                head < queue@.len() ==> forall|t: int| 0 <= t < queue@.len() ==> level[#[trigger] queue@[t] as int] <= level[queue@[head as int] as int] + 1,
                forall|t: int, j: int|
                    0 <= t < head && 0 <= j < self.degree(queue@[t] as int) ==> level[#[trigger] self.entry(
                        queue@[t] as int,
                        j,
                    ).node_index as int] <= level[queue@[t] as int] + 1,
            decreases count_false(visited@) + queue@.len() - head,
        {
            let u = queue[head];
            if u == goal {
                let path = self.walk_back(start, goal, &pred, Ghost(pos), Ghost(pslot), Ghost(level), &visited);
                proof {
                    self.lemma_fewest(start, goal, visited@, pred@, queue@, pos, pslot, level, head as int);
                }
                return Some(path);
            }
            let ghost q0 = queue@;
            let ghost v0 = visited@;
            let ghost l0 = level;
            let (gpos, gslot, glevel) = self.visit_neighbors(u, start, Ghost(head as int), &mut visited, &mut pred, &mut queue, Ghost(pos), Ghost(pslot), Ghost(level));
            proof {
                pos = gpos@;
                pslot = gslot@;
                level = glevel@;
                assert forall|t: int, j: int|
                    0 <= t < head + 1 && 0 <= j < self.degree(queue@[t] as int) implies level[#[trigger] self.entry(
                        queue@[t] as int,
                        j,
                    ).node_index as int] <= level[queue@[t] as int] + 1 by {
                    assert(queue@[t] == q0[t]);
                    if t < head {
                        let w = self.entry(q0[t] as int, j).node_index as int;
                        assert(v0[w]);
                        assert(level[w] == l0[w]);
                        assert(level[q0[t] as int] == l0[q0[t] as int]);
                    }
                }
                if head + 1 < queue@.len() {
                    assert forall|t: int| 0 <= t < queue@.len() implies level[#[trigger] queue@[t] as int] <= level[queue@[head + 1] as int] + 1 by {
                        assert(level[queue@[head as int] as int] <= level[queue@[head + 1] as int]);
                    }
                }
                assert forall|t: int, j: int|
                    0 <= t < head + 1 && 0 <= j < self.degree(queue@[t] as int) implies visited@[#[trigger] self.entry(
                        queue@[t] as int,
                        j,
                    ).node_index as int] by {
                    assert(queue@[t] == q0[t]);
                    if t < head {
                        assert(v0[self.entry(q0[t] as int, j).node_index as int]);
                    }
                }
                assert forall|t: int| 0 <= t < head + 1 implies #[trigger] queue@[t] != goal by {
                    assert(queue@[t] == q0[t]);
                }
            }
            head += 1;
        }
        proof {
            assert forall|u: int, j: int|
                0 <= u < n && visited@[u] && 0 <= j < self.degree(u) implies visited@[#[trigger] self.entry(
                    u,
                    j,
                ).node_index as int] by {
                let t = pos[u];
                assert(queue@[t] == u);
            }
            assert(visited@[start as int]);
            if self.reachable(start as int, goal as int) {
                let p = choose|p: Seq<usize>| #[trigger] self.is_walk(p) && p[0] == start && p.last() == goal;
                let slots = choose|slots: Seq<usize>| self.follows(p, slots);
                lemma_walk_stays_marked(*self, visited@, p, slots, p.len() - 1);
                assert(queue@[pos[goal as int]] == goal);
            }
        }
        None
    }

    /// The bookkeeping of the breadth-first search: the queue holds each
    /// marked node once, at its recorded position, and every marked node but
    /// `start` has a marked predecessor, queued earlier, with an entry to it.
    pub open spec fn marks_ok(
        &self,
        start: usize,
        visited: Seq<bool>,
        pred: Seq<usize>,
        queue: Seq<usize>,
        pos: Seq<int>,
        pslot: Seq<usize>,
    ) -> bool {
        let n = self.node_count();
        &&& visited.len() == n
        &&& pred.len() == n
        &&& pos.len() == n
        &&& pslot.len() == n
        &&& queue.len() >= 1
        &&& queue[0] == start
        &&& visited[start as int]
        &&& forall|t: int|
            0 <= t < queue.len() ==> (#[trigger] queue[t]) < n && visited[queue[t] as int]
                && pos[queue[t] as int] == t
        &&& forall|v: int| 0 <= v < n && #[trigger] visited[v] ==> 0 <= pos[v] < queue.len()
        &&& forall|v: int| 0 <= v < n && #[trigger] visited[v] ==> queue[pos[v]] == v
        &&& forall|v: int|
            0 <= v < n && #[trigger] visited[v] && v != start ==> {
                &&& pred[v] < n
                &&& visited[pred[v] as int]
                &&& pos[pred[v] as int] < pos[v]
                &&& pslot[v] < self.degree(pred[v] as int)
                &&& self.entry(pred[v] as int, pslot[v] as int).node_index == v
            }
    }

    /// Marks and queues the unmarked neighbours of the queued node `u`.
    fn visit_neighbors(
        &self,
        u: usize,
        start: usize,
        h: Ghost<int>,
        visited: &mut Vec<bool>,
        pred: &mut Vec<usize>,
        queue: &mut Vec<usize>,
        pos: Ghost<Seq<int>>,
        pslot: Ghost<Seq<usize>>,
        level: Ghost<Seq<int>>,
    ) -> (res: (Ghost<Seq<int>>, Ghost<Seq<usize>>, Ghost<Seq<int>>))
        requires
            self.wf(),
            start < self.node_count(),
            u < self.node_count(),
            old(visited)@[u as int],
            self.marks_ok(start, old(visited)@, old(pred)@, old(queue)@, pos@, pslot@),
            0 <= h@ < old(queue)@.len(),
            old(queue)@[h@] == u,
            level@.len() == self.node_count(),
            level@[start as int] == 0,
            forall|v: int| 0 <= v < self.node_count() && #[trigger] old(visited)@[v] && v != start ==> level@[v] == level@[old(pred)@[v] as int] + 1,
            forall|t1: int, t2: int| 0 <= t1 <= t2 < old(queue)@.len() ==> level@[#[trigger] old(queue)@[t1] as int] <= level@[#[trigger] old(queue)@[t2] as int],
            forall|t: int| 0 <= t < old(queue)@.len() ==> level@[#[trigger] old(queue)@[t] as int] <= level@[u as int] + 1,
        ensures
            res.2@.len() == self.node_count(),
            res.2@[start as int] == 0,
            forall|v: int| 0 <= v < self.node_count() && #[trigger] final(visited)@[v] && v != start ==> res.2@[v] == res.2@[final(pred)@[v] as int] + 1,
            forall|t1: int, t2: int| 0 <= t1 <= t2 < final(queue)@.len() ==> res.2@[#[trigger] final(queue)@[t1] as int] <= res.2@[#[trigger] final(queue)@[t2] as int],
            forall|t: int| 0 <= t < final(queue)@.len() ==> res.2@[#[trigger] final(queue)@[t] as int] <= level@[u as int] + 1,
            forall|v: int| 0 <= v < self.node_count() && #[trigger] old(visited)@[v] ==> res.2@[v] == level@[v],
            forall|j: int| 0 <= j < self.degree(u as int) ==> res.2@[#[trigger] self.entry(u as int, j).node_index as int] <= level@[u as int] + 1,
            self.marks_ok(start, final(visited)@, final(pred)@, final(queue)@, res.0@, res.1@),
            old(queue)@.len() <= final(queue)@.len(),
            forall|t: int| 0 <= t < old(queue)@.len() ==> #[trigger] final(queue)@[t] == old(queue)@[t],
            forall|v: int| 0 <= v < self.node_count() && #[trigger] old(visited)@[v] ==> final(visited)@[v],
            count_false(final(visited)@) + final(queue)@.len() == count_false(old(visited)@) + old(queue)@.len(),
            forall|j: int| 0 <= j < self.degree(u as int) ==> final(visited)@[#[trigger] self.entry(u as int, j).node_index as int],
    {
        let ghost mut pos = pos@;
        let ghost mut pslot = pslot@;
        let ghost mut lv = level@;
        let n = visited.len();
        let mut j: usize = 0;
        while j < self.adj()[u].len()
            invariant
                self.wf(),
                n == self.node_count(),
                u < n,
                start < n,
                visited@[u as int],
                j <= self.degree(u as int),
                self.marks_ok(start, visited@, pred@, queue@, pos, pslot),
                old(queue)@.len() <= queue@.len(),
                forall|t: int| 0 <= t < old(queue)@.len() ==> #[trigger] queue@[t] == old(queue)@[t],
                forall|v: int| 0 <= v < n && #[trigger] old(visited)@[v] ==> visited@[v],
                count_false(visited@) + queue@.len() == count_false(old(visited)@) + old(queue)@.len(),
                forall|j2: int| 0 <= j2 < j ==> visited@[#[trigger] self.entry(u as int, j2).node_index as int],
                lv.len() == n,
                lv[start as int] == 0,
                old(visited)@[u as int],
                lv[u as int] == level@[u as int],
                forall|v: int| 0 <= v < n && #[trigger] visited@[v] && v != start ==> lv[v] == lv[pred@[v] as int] + 1,
                forall|t1: int, t2: int| 0 <= t1 <= t2 < queue@.len() ==> lv[#[trigger] queue@[t1] as int] <= lv[#[trigger] queue@[t2] as int],
                forall|t: int| 0 <= t < queue@.len() ==> lv[#[trigger] queue@[t] as int] <= level@[u as int] + 1,
                forall|v: int| 0 <= v < n && #[trigger] old(visited)@[v] ==> lv[v] == level@[v],
                forall|j2: int| 0 <= j2 < j ==> lv[#[trigger] self.entry(u as int, j2).node_index as int] <= level@[u as int] + 1,
            decreases self.degree(u as int) - j,
        {
            let v = self.adj()[u][j].node_index;
            proof {
                assert(self.spec_adj()[u as int]@[j as int] == self.entry(u as int, j as int));
            }
            let ghost vis_before = visited@;
            let ghost pred_before = pred@;
            let ghost lv_before = lv;
            if !visited[v] {
                proof {
                    lemma_count_false_update(visited@, v as int);
                    pos = pos.update(v as int, queue@.len() as int);
                    pslot = pslot.update(v as int, j);
                    lv = lv.update(v as int, level@[u as int] + 1);
                }
                let ghost q = queue@;
                visited.set(v, true);
                pred.set(v, u);
                queue.push(v);
                proof {
                    assert forall|t: int| 0 <= t < queue@.len() implies (#[trigger] queue@[t]) < n
                        && visited@[queue@[t] as int] && pos[queue@[t] as int] == t by {
                        if t < q.len() {
                            assert(queue@[t] == q[t]);
                        }
                    }
                    assert(v != u);
                    assert(v != start);
                    assert forall|w: int| 0 <= w < n && #[trigger] visited@[w] && w != start implies lv[w] == lv[pred@[w] as int] + 1 by {
                        if w != v {
                            assert(vis_before[w]);
                            assert(pred@[w] == pred_before[w]);
                            assert(pred_before[w] != v) by {
                                assert(vis_before[pred_before[w] as int]);
                            }
                        }
                    }
                    assert forall|t1: int, t2: int| 0 <= t1 <= t2 < queue@.len() implies lv[#[trigger] queue@[t1] as int] <= lv[#[trigger] queue@[t2] as int] by {
                        assert(queue@[t1] == q[t1] || t1 == q.len());
                        if t2 < q.len() {
                            assert(queue@[t2] == q[t2]);
                            assert(queue@[t1] == q[t1]);
                            assert(q[t1] != v && q[t2] != v);
                        } else if t1 < q.len() {
                            assert(queue@[t1] == q[t1]);
                            assert(q[t1] != v);
                            assert(lv_before[q[t1] as int] <= level@[u as int] + 1);
                        }
                    }
                    assert forall|t: int| 0 <= t < queue@.len() implies lv[#[trigger] queue@[t] as int] <= level@[u as int] + 1 by {
                        if t < q.len() {
                            assert(queue@[t] == q[t]);
                            assert(q[t] != v);
                        }
                    }
                }
            } else {
                proof {
                    let pv = pos[v as int];
                    assert(queue@[pv] == v);
                    assert(lv[queue@[pv] as int] <= level@[u as int] + 1);
                }
            }
            j += 1;
        }
        (Ghost(pos), Ghost(pslot), Ghost(lv))
    }

    /// Follows the predecessor marks back from `goal` to `start` and returns
    /// the walk between them.
    fn walk_back(
        &self,
        start: usize,
        goal: usize,
        pred: &Vec<usize>,
        pos: Ghost<Seq<int>>,
        pslot: Ghost<Seq<usize>>,
        level: Ghost<Seq<int>>,
        visited: &Vec<bool>,
    ) -> (r: Vec<usize>)
        requires
            level@.len() == self.node_count(),
            level@[start as int] == 0,
            forall|v: int| 0 <= v < self.node_count() && #[trigger] visited@[v] && v != start ==> level@[v] == level@[pred@[v] as int] + 1,
            self.wf(),
            start < self.node_count(),
            goal < self.node_count(),
            visited@.len() == self.node_count(),
            pred@.len() == self.node_count(),
            pos@.len() == self.node_count(),
            pslot@.len() == self.node_count(),
            visited@[goal as int],
            visited@[start as int],
            forall|v: int| 0 <= v < self.node_count() && #[trigger] visited@[v] ==> pos@[v] >= 0,
            forall|v: int| 0 <= v < self.node_count() && #[trigger] visited@[v] && v != start ==> {
                &&& pred@[v] < self.node_count()
                &&& visited@[pred@[v] as int]
                &&& pos@[pred@[v] as int] < pos@[v]
                &&& pslot@[v] < self.degree(pred@[v] as int)
                &&& self.entry(pred@[v] as int, pslot@[v] as int).node_index == v
            },
        ensures
            r@.len() >= 1,
            r@[0] == start,
            r@.last() == goal,
            self.is_walk(r@),
            r@.len() == level@[goal as int] + 1,
    {
        let mut back: Vec<usize> = Vec::new();
        let mut cur = goal;
        let ghost mut w: Seq<usize> = seq![goal];
        let ghost mut ws: Seq<usize> = Seq::empty();
        while cur != start
            invariant
                self.wf(),
                start < self.node_count(),
                cur < self.node_count(),
                visited@.len() == self.node_count(),
                pred@.len() == self.node_count(),
                pos@.len() == self.node_count(),
                pslot@.len() == self.node_count(),
                visited@[cur as int],
                forall|v: int| 0 <= v < self.node_count() && #[trigger] visited@[v] ==> pos@[v] >= 0,
                forall|v: int| 0 <= v < self.node_count() && #[trigger] visited@[v] && v != start ==> {
                    &&& pred@[v] < self.node_count()
                    &&& visited@[pred@[v] as int]
                    &&& pos@[pred@[v] as int] < pos@[v]
                    &&& pslot@[v] < self.degree(pred@[v] as int)
                    &&& self.entry(pred@[v] as int, pslot@[v] as int).node_index == v
                },
                w.len() == back@.len() + 1,
                w[0] == cur,
                w.last() == goal,
                level@.len() == self.node_count(),
                level@[start as int] == 0,
                forall|v: int| 0 <= v < self.node_count() && #[trigger] visited@[v] && v != start ==> level@[v] == level@[pred@[v] as int] + 1,
                w.len() + level@[cur as int] == level@[goal as int] + 1,
                self.follows(w, ws),
                forall|t: int| 0 <= t < back@.len() ==> #[trigger] back@[t] == w[w.len() - 1 - t],
            decreases pos@[cur as int],
        {
            let p = pred[cur];
            proof {
                let w2 = seq![p].add(w);
                let ws2 = seq![pslot@[cur as int]].add(ws);
                assert forall|t: int| 0 <= t < ws2.len() implies #[trigger] ws2[t] < self.degree(
                    w2[t] as int,
                ) && self.entry(w2[t] as int, ws2[t] as int).node_index == w2[t + 1] by {
                    if t > 0 {
                        assert(ws2[t] == ws[t - 1]);
                        assert(w2[t] == w[t - 1]);
                        assert(w2[t + 1] == w[t]);
                    }
                }
                assert(self.follows(w2, ws2));
                w = w2;
                ws = ws2;
            }
            back.push(cur);
            cur = p;
        }
        let mut out: Vec<usize> = Vec::new();
        out.push(start);
        let mut t: usize = 0;
        while t < back.len()
            invariant
                w.len() == back@.len() + 1,
                w[0] == start,
                t <= back@.len(),
                out@.len() == t + 1,
                forall|s: int| 0 <= s < back@.len() ==> #[trigger] back@[s] == w[w.len() - 1 - s],
                forall|s: int| 0 <= s <= t ==> #[trigger] out@[s] == w[s],
            decreases back@.len() - t,
        {
            out.push(back[back.len() - 1 - t]);
            t += 1;
        }
        assert(out@ =~= w);
        out
    }
}

} // verus!
