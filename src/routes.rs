//! Search results turned into `Path` records.
use vstd::prelude::*;
use crate::graph::Graph;
use crate::model::Path;
use crate::builder::symmetric;
use crate::search::{MAX_HEURISTIC_STATES, sought_answers, window_route, sought, crowded_search, prefix_len, bfs_answers, answers_view};
use crate::hybrid::{hybrid_route, reverse_pass_ok, leads_to_midpoint, only_start, stitched_route};

verus! {

/// `path` holds the nodes of `p`, a route from `start` to `goal` whose length
/// is `path.distance` and lies within `tol` of `target`.
pub open spec fn shows_route(
    g: Graph,
    path: Path,
    p: Seq<usize>,
    start: int,
    goal: int,
    target: int,
    tol: int,
) -> bool {
    window_route(g, p, path.distance as int, start, goal, target, tol) && path.nodes@
        == g.nodes_along(p)
}

/// `path` holds the nodes of `p`, a route from `start` to `goal` that can be
/// taken within `path.distance`, which lies within `tol` of `target`.
pub open spec fn shows_hybrid_route(
    g: Graph,
    path: Path,
    p: Seq<usize>,
    start: int,
    goal: int,
    target: int,
    tol: int,
) -> bool {
    hybrid_route(g, p, path.distance as int, start, goal, target, tol) && path.nodes@
        == g.nodes_along(p)
}

/// `path` holds the nodes of a route from `start` to `goal` whose length
/// is `path.distance` and lies within `tol` of `target`.
pub open spec fn holds_route(g: Graph, path: Path, start: int, goal: int, target: int, tol: int) -> bool {
    exists|p: Seq<usize>| #[trigger] shows_route(g, path, p, start, goal, target, tol)
}

/// `path` holds the nodes of a route from `start` to `goal` that can be
/// taken within `path.distance`, which lies within `tol` of `target`.
pub open spec fn holds_hybrid_route(
    g: Graph,
    path: Path,
    start: int,
    goal: int,
    target: int,
    tol: int,
) -> bool {
    exists|p: Seq<usize>| #[trigger] shows_hybrid_route(g, path, p, start, goal, target, tol)
}

/// `path` holds the nodes of `p`, a stitched hybrid route (see
/// `stitched_route`) of length `path.distance`.
pub open spec fn shows_stitched(
    g: Graph,
    dist: Seq<Option<u64>>,
    parent: Seq<Option<usize>>,
    start: int,
    goal: int,
    target: int,
    tol: int,
    path: Path,
    p: Seq<usize>,
) -> bool {
    stitched_route(g, dist, parent, start, goal, target, tol, p, path.distance as int) && path.nodes@
        == g.nodes_along(p)
}

/// `path` holds the nodes of some stitched hybrid route of length
/// `path.distance`.
pub open spec fn holds_stitched(
    g: Graph,
    dist: Seq<Option<u64>>,
    parent: Seq<Option<usize>>,
    start: int,
    goal: int,
    target: int,
    tol: int,
    path: Path,
) -> bool {
    exists|p: Seq<usize>| #[trigger] shows_stitched(g, dist, parent, start, goal, target, tol, path, p)
}

impl Graph {
    /// Turns each found route into a `Path` with a fresh identifier.
    fn materialize_all(&self, found: &Vec<(Vec<usize>, u64)>) -> (r: Vec<Path>)
        requires
            self.wf(),
            forall|i: int| 0 <= i < found@.len() ==> #[trigger] self.is_walk(found@[i].0@),
        ensures
            r@.len() == found@.len(),
            forall|i: int|
                0 <= i < found@.len() ==> (#[trigger] r@[i]).nodes@ == self.nodes_along(found@[i].0@)
                    && r@[i].distance == found@[i].1,
    {
        let mut out: Vec<Path> = Vec::new();
        let mut i: usize = 0;
        while i < found.len()
            invariant
                self.wf(),
                i <= found@.len(),
                out@.len() == i,
                forall|s: int| 0 <= s < found@.len() ==> #[trigger] self.is_walk(found@[s].0@),
                forall|s: int|
                    0 <= s < i ==> (#[trigger] out@[s]).nodes@ == self.nodes_along(found@[s].0@)
                        && out@[s].distance == found@[s].1,
            decreases found@.len() - i,
        {
            let ghost p = found@[i as int].0@;
            proof {
                assert(self.is_walk(found@[i as int].0@));
                let slots = choose|slots: Seq<usize>| self.follows(p, slots);
                self.lemma_follows_in_range(p, slots);
            }
            let path = self.convert_to_path(&found[i].0, found[i].1);
            proof {
                assert(path.nodes@ =~= self.nodes_along(p));
            }
            out.push(path);
            i += 1;
        }
        out
    }

    /// The distance-windowed search between two node indices, as `Path`s.
    pub fn get_paths_bfs(
        &self,
        start: usize,
        goal: usize,
        k: usize,
        target_distance: u64,
        tol: u64,
        goal_bounds: &Vec<u64>,
    ) -> (r: Vec<Path>)
        requires
            self.wf(),
            start < self.node_count(),
            goal < self.node_count(),
            goal_bounds@.len() == self.node_count(),
            target_distance + tol <= u64::MAX,
        ensures
            r@.len() <= k,
            forall|i: int| #![trigger r@[i]]
                0 <= i < r@.len() ==> holds_route(*self, r@[i], start as int, goal as int, target_distance as int, tol as int),
            exists|rs: Seq<(Seq<usize>, int)>|
                #[trigger] bfs_answers(
                    *self,
                    start as int,
                    goal as int,
                    k as int,
                    target_distance as int,
                    tol as int,
                    goal_bounds@,
                    rs,
                ) && rs.len() == r@.len() && forall|i: int|
                    0 <= i < r@.len() ==> (#[trigger] r@[i]).nodes@ == self.nodes_along(rs[i].0)
                        && r@[i].distance == rs[i].1,
    {
        let found = self.bfs(start, goal, k, target_distance, tol, goal_bounds);
        proof {
            self.lemma_routes_are_walks(found@, start as int, goal as int, target_distance as int, tol as int);
        }
        let paths = self.materialize_all(&found);
        proof {
            assert forall|i: int| #![trigger paths@[i]] 0 <= i < paths@.len() implies holds_route(*self, paths@[i], start as int, goal as int, target_distance as int, tol as int) by {
                assert(window_route(*self, found@[i].0@, found@[i].1 as int, start as int, goal as int, target_distance as int, tol as int));
                assert(shows_route(*self, paths@[i], found@[i].0@, start as int, goal as int, target_distance as int, tol as int));
            }
            let rs = answers_view(found@);
            assert forall|i: int| 0 <= i < paths@.len() implies (#[trigger] paths@[i]).nodes@ == self.nodes_along(rs[i].0)
                && paths@[i].distance == rs[i].1 by {
                assert(rs[i] == (found@[i].0@, found@[i].1 as int));
            }
            assert(bfs_answers(*self, start as int, goal as int, k as int, target_distance as int, tol as int, goal_bounds@, rs));
        }
        paths
    }

    /// The closeness-first search between two node indices, as `Path`s.
    pub fn get_paths_special_dijkstra(
        &self,
        start: usize,
        goal: usize,
        k: usize,
        target_distance: u64,
        tol: u64,
        goal_bounds: &Vec<u64>,
    ) -> (r: Vec<Path>)
        requires
            self.wf(),
            start < self.node_count(),
            goal < self.node_count(),
            goal_bounds@.len() == self.node_count(),
            target_distance + tol <= u64::MAX,
        ensures
            r@.len() <= k,
            forall|i: int| #![trigger r@[i]]
                0 <= i < r@.len() ==> holds_route(*self, r@[i], start as int, goal as int, target_distance as int, tol as int),
            exists|rs: Seq<(Seq<usize>, int)>|
                #[trigger] sought_answers(*self, start as int, goal as int, target_distance as int, tol as int, rs)
                    && rs.len() == r@.len() && forall|i: int|
                    0 <= i < r@.len() ==> (#[trigger] r@[i]).nodes@ == self.nodes_along(rs[i].0)
                        && r@[i].distance == rs[i].1,
            r@.len() < k ==> crowded_search(*self, start as int, goal as int, (target_distance + tol) as int, MAX_HEURISTIC_STATES as int) || forall|p: Seq<usize>, slots: Seq<usize>|
                #[trigger] sought(
                    *self,
                    p,
                    slots,
                    start as int,
                    goal as int,
                    target_distance as int,
                    tol as int,
                ) ==> exists|i: int|
                    0 <= i < r@.len() && (#[trigger] r@[i]).nodes@ == self.nodes_along(p) && r@[i].distance
                        == prefix_len(*self, p, slots, slots.len() as int),
    {
        let found = self.special_dijkstra(start, goal, k, target_distance, tol, goal_bounds);
        proof {
            self.lemma_routes_are_walks(found@, start as int, goal as int, target_distance as int, tol as int);
        }
        let paths = self.materialize_all(&found);
        proof {
            assert forall|i: int| #![trigger paths@[i]] 0 <= i < paths@.len() implies holds_route(*self, paths@[i], start as int, goal as int, target_distance as int, tol as int) by {
                assert(window_route(*self, found@[i].0@, found@[i].1 as int, start as int, goal as int, target_distance as int, tol as int));
                assert(shows_route(*self, paths@[i], found@[i].0@, start as int, goal as int, target_distance as int, tol as int));
            }
            let rs = answers_view(found@);
            assert forall|i: int| 0 <= i < paths@.len() implies (#[trigger] paths@[i]).nodes@ == self.nodes_along(rs[i].0)
                && paths@[i].distance == rs[i].1 by {
                assert(rs[i] == (found@[i].0@, found@[i].1 as int));
            }
            assert(sought_answers(*self, start as int, goal as int, target_distance as int, tol as int, rs));
            if paths@.len() < k && !crowded_search(*self, start as int, goal as int, (target_distance + tol) as int, MAX_HEURISTIC_STATES as int) {
                assert forall|p: Seq<usize>, slots: Seq<usize>|
                    #[trigger] sought(
                        *self,
                        p,
                        slots,
                        start as int,
                        goal as int,
                        target_distance as int,
                        tol as int,
                    ) implies exists|i: int|
                        0 <= i < paths@.len() && (#[trigger] paths@[i]).nodes@ == self.nodes_along(p) && paths@[i].distance
                            == prefix_len(*self, p, slots, slots.len() as int) by {
                    let i = choose|i: int|
                        0 <= i < found@.len() && (#[trigger] found@[i]).0@ == p && found@[i].1 == prefix_len(
                            *self,
                            p,
                            slots,
                            slots.len() as int,
                        );
                    assert(paths@[i].nodes@ == self.nodes_along(found@[i].0@));
                }
            }
        }
        paths
    }

    /// The randomized hybrid search between two node indices, as `Path`s;
    /// `None` where the reverse pass finds no distance from `start` to
    /// `goal`.
    pub fn get_paths_dfs(
        &self,
        start: usize,
        goal: usize,
        k: usize,
        target_distance: u64,
        tol: u64,
    ) -> (r: Option<Vec<Path>>)
        requires
            self.wf(),
            symmetric(self.spec_adj()),
            start < self.node_count(),
            goal < self.node_count(),
            target_distance + tol <= u64::MAX,
        ensures
            r is None ==> forall|p: Seq<usize>, slots: Seq<usize>|
                #![trigger self.follows(p, slots)]
                self.follows(p, slots) && p[0] == goal && p.last() == start ==> self.length_along(p, slots)
                    > target_distance + tol,
            r matches Some(ps) ==> exists|dist: Seq<Option<u64>>, parent: Seq<Option<usize>>|
                #[trigger] reverse_pass_ok(*self, goal as int, Some((target_distance + tol) as u64), dist, parent)
                    && dist[start as int] is Some && (forall|i: int| #![trigger ps@[i]]
                    0 <= i < ps@.len() ==> holds_stitched(*self, dist, parent, start as int, goal as int, target_distance as int, tol as int, ps@[i])) && ((exists|ext: Seq<usize>, es: Seq<usize>|
                    ext.len() >= 1 && ext[0] == start && #[trigger] leads_to_midpoint(
                        *self,
                        dist,
                        only_start(self.node_count() as nat, start as int),
                        start as int,
                        target_distance as int,
                        tol as int,
                        0,
                        ext,
                        es,
                    )) ==> ps@.len() == k),
            r matches Some(ps) ==> {
                &&& ps@.len() <= k
                &&& forall|i: int| #![trigger ps@[i]]
                    0 <= i < ps@.len() ==> holds_hybrid_route(*self, ps@[i], start as int, goal as int, target_distance as int, tol as int)
            },
    {
        let found = match self.find_paths_with_dfs(start, goal, k, target_distance, tol) {
            Some(f) => f,
            None => {
                return None;
            },
        };
        proof {
            assert forall|i: int| 0 <= i < found@.len() implies #[trigger] self.is_walk(found@[i].0@) by {
                assert(hybrid_route(*self, found@[i].0@, found@[i].1 as int, start as int, goal as int, target_distance as int, tol as int));
                let d2 = choose|d2: int| d2 <= found@[i].1 && #[trigger] self.is_route(found@[i].0@, d2);
                let slots = choose|slots: Seq<usize>| self.follows(found@[i].0@, slots) && self.length_along(found@[i].0@, slots) == d2;
            }
        }
        let paths = self.materialize_all(&found);
        proof {
            assert forall|i: int| #![trigger paths@[i]] 0 <= i < paths@.len() implies holds_hybrid_route(*self, paths@[i], start as int, goal as int, target_distance as int, tol as int) by {
                assert(hybrid_route(*self, found@[i].0@, found@[i].1 as int, start as int, goal as int, target_distance as int, tol as int));
                assert(shows_hybrid_route(*self, paths@[i], found@[i].0@, start as int, goal as int, target_distance as int, tol as int));
            }
            let (dist, parent) = choose|dist: Seq<Option<u64>>, parent: Seq<Option<usize>>|
                #[trigger] reverse_pass_ok(*self, goal as int, Some((target_distance + tol) as u64), dist, parent)
                    && dist[start as int] is Some && (forall|i: int|
                    0 <= i < found@.len() ==> stitched_route(
                        *self,
                        dist,
                        parent,
                        start as int,
                        goal as int,
                        target_distance as int,
                        tol as int,
                        (#[trigger] found@[i]).0@,
                        found@[i].1 as int,
                    )) && ((exists|ext: Seq<usize>, es: Seq<usize>|
                    ext.len() >= 1 && ext[0] == start && #[trigger] leads_to_midpoint(
                        *self,
                        dist,
                        only_start(self.node_count() as nat, start as int),
                        start as int,
                        target_distance as int,
                        tol as int,
                        0,
                        ext,
                        es,
                    )) ==> found@.len() == k);
            assert forall|i: int| #![trigger paths@[i]] 0 <= i < paths@.len() implies holds_stitched(*self, dist, parent, start as int, goal as int, target_distance as int, tol as int, paths@[i]) by {
                assert(stitched_route(*self, dist, parent, start as int, goal as int, target_distance as int, tol as int, found@[i].0@, found@[i].1 as int));
                assert(shows_stitched(*self, dist, parent, start as int, goal as int, target_distance as int, tol as int, paths@[i], found@[i].0@));
            }
            assert(reverse_pass_ok(*self, goal as int, Some((target_distance + tol) as u64), dist, parent));
            assert(paths@.len() == found@.len());
            if exists|ext: Seq<usize>, es: Seq<usize>|
                ext.len() >= 1 && ext[0] == start && #[trigger] leads_to_midpoint(
                    *self,
                    dist,
                    only_start(self.node_count() as nat, start as int),
                    start as int,
                    target_distance as int,
                    tol as int,
                    0,
                    ext,
                    es,
                ) {
                assert(paths@.len() == k);
            }
        }
        Some(paths)
    }

    proof fn lemma_routes_are_walks(
        &self,
        found: Seq<(Vec<usize>, u64)>,
        start: int,
        goal: int,
        target: int,
        tol: int,
    )
        requires
            forall|i: int|
                0 <= i < found.len() ==> window_route(
                    *self,
                    (#[trigger] found[i]).0@,
                    found[i].1 as int,
                    start,
                    goal,
                    target,
                    tol,
                ),
        ensures
            forall|i: int| 0 <= i < found.len() ==> #[trigger] self.is_walk(found[i].0@),
    {
        assert forall|i: int| 0 <= i < found.len() implies #[trigger] self.is_walk(found[i].0@) by {
            assert(window_route(*self, found[i].0@, found[i].1 as int, start, goal, target, tol));
            let slots = choose|slots: Seq<usize>|
                self.follows(found[i].0@, slots) && self.length_along(found[i].0@, slots) == found[i].1 as int;
        }
    }
}

} // verus!
