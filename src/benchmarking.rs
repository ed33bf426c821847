//! A square grid graph for measuring the searches.
use vstd::prelude::*;
use vstd::arithmetic::div_mod::{lemma_fundamental_div_mod, lemma_fundamental_div_mod_converse};
use crate::graph::{Graph, adjacency_ok};
use crate::model::{Node, Neighbor, EdgeData};

verus! {

/// A one-metre grid edge to node `v`.
pub open spec fn unit_edge(v: int) -> Neighbor {
    Neighbor { osm_id: 0, node_index: v as usize, edge_data: EdgeData { way_id: 0, length_mm: 1000 } }
}

/// The adjacency list of node `x` of an `n` by `n` grid once the cells
/// before `cur` (row by row) have been joined to their right and lower
/// neighbours: the upper, left, right and lower neighbours, in that order,
/// each once it has been joined.
pub open spec fn grid_upto(n: int, x: int, cur: int) -> Seq<Neighbor> {
    let row = x / n;
    let col = x % n;
    (if row > 0 && x - n < cur {
        seq![unit_edge(x - n)]
    } else {
        Seq::empty()
    }) + (if col > 0 && x - 1 < cur {
        seq![unit_edge(x - 1)]
    } else {
        Seq::empty()
    }) + (if col + 1 < n && x < cur {
        seq![unit_edge(x + 1)]
    } else {
        Seq::empty()
    }) + (if row + 1 < n && x < cur {
        seq![unit_edge(x + n)]
    } else {
        Seq::empty()
    })
}

/// Joins `u` and `v` by an undirected edge one metre long.
fn link(adj: &mut Vec<Vec<Neighbor>>, u: usize, v: usize)
    requires
        u < old(adj)@.len(),
        v < old(adj)@.len(),
        u != v,
    ensures
        final(adj)@.len() == old(adj)@.len(),
        final(adj)@[u as int]@ == old(adj)@[u as int]@.push(unit_edge(v as int)),
        final(adj)@[v as int]@ == old(adj)@[v as int]@.push(unit_edge(u as int)),
        forall|a: int| 0 <= a < old(adj)@.len() && a != u && a != v ==> #[trigger] final(adj)@[a] == old(adj)@[a],
{
    let edge = EdgeData { way_id: 0, length_mm: 1000 };
    adj[u].push(Neighbor { osm_id: 0, node_index: v, edge_data: edge });
    adj[v].push(Neighbor { osm_id: 0, node_index: u, edge_data: edge });
}

/// How joining cell `row * n + col` changes each list.
proof fn lemma_grid_step(n: int, row: int, col: int, x: int)
    requires
        0 <= row < n,
        0 <= col < n,
        0 <= x < n * n,
    ensures
        x == row * n + col ==> grid_upto(n, x, row * n + col + 1) == grid_upto(n, x, row * n + col) + (if col
            + 1 < n {
            seq![unit_edge(x + 1)]
        } else {
            Seq::empty()
        }) + (if row + 1 < n {
            seq![unit_edge(x + n)]
        } else {
            Seq::empty()
        }),
        x == row * n + col + 1 && col + 1 < n ==> grid_upto(n, x, row * n + col + 1) == grid_upto(
            n,
            x,
            row * n + col,
        ).push(unit_edge(row * n + col)),
        x == row * n + col + n && row + 1 < n ==> grid_upto(n, x, row * n + col + 1) == seq![
            unit_edge(row * n + col),
        ] && grid_upto(n, x, row * n + col) == Seq::<Neighbor>::empty(),
        x != row * n + col && !(x == row * n + col + 1 && col + 1 < n) && !(x == row * n + col + n && row
            + 1 < n) ==> grid_upto(n, x, row * n + col + 1) == grid_upto(n, x, row * n + col),
{
    let idx = row * n + col;
    lemma_fundamental_div_mod(x, n);
    let r = x / n;
    let c = x % n;
    assert(0 <= c < n);
    assert(x == n * r + c);
    assert(n * r == r * n) by (nonlinear_arith);
    if x == idx {
        lemma_fundamental_div_mod_converse(x, n, row, col);
        assert(grid_upto(n, x, idx + 1) =~= grid_upto(n, x, idx) + (if col + 1 < n {
            seq![unit_edge(x + 1)]
        } else {
            Seq::empty()
        }) + (if row + 1 < n {
            seq![unit_edge(x + n)]
        } else {
            Seq::empty()
        }));
    } else if x == idx + 1 && col + 1 < n {
        lemma_fundamental_div_mod_converse(x, n, row, col + 1);
        assert(grid_upto(n, x, idx + 1) =~= grid_upto(n, x, idx).push(unit_edge(idx)));
    } else if x == idx + n && row + 1 < n {
        assert(x == (row + 1) * n + col) by (nonlinear_arith)
            requires x == row * n + col + n;
        lemma_fundamental_div_mod_converse(x, n, row + 1, col);
        assert(grid_upto(n, x, idx) =~= Seq::<Neighbor>::empty());
        assert(grid_upto(n, x, idx + 1) =~= seq![unit_edge(idx)]);
    } else {
        if x == idx + 1 {
            assert(x == (row + 1) * n + 0) by (nonlinear_arith)
                requires x == row * n + col + 1, col + 1 == n;
            lemma_fundamental_div_mod_converse(x, n, row + 1, 0);
        }
        if x == idx + n {
            assert(x == (row + 1) * n + col) by (nonlinear_arith)
                requires x == row * n + col + n;
            assert((row + 1) * n >= n * n) by (nonlinear_arith)
                requires row + 1 >= n, n >= 0;
        }
        assert(grid_upto(n, x, idx + 1) =~= grid_upto(n, x, idx));
    }
}

/// An `n` by `n` grid: node `row * n + col` at position (0, 0), joined to its
/// right and lower neighbours by edges one metre long.
pub fn make_grid_graph(n: usize) -> (r: Graph)
    requires
        n * n <= usize::MAX,
    ensures
        r.wf(),
        r.node_count() == n * n,
        forall|x: int|
            0 <= x < n * n ==> (#[trigger] r.spec_nodes()[x]).spec_id() == x && r.spec_nodes()[x].spec_lat()
                == 0 && r.spec_nodes()[x].spec_lon() == 0,
        forall|x: int| 0 <= x < n * n ==> (#[trigger] r.spec_adj()[x])@ == grid_upto(n as int, x, n * n),
{
    let total = n * n;
    let mut nodes: Vec<Node> = Vec::new();
    let mut adj: Vec<Vec<Neighbor>> = Vec::new();
    let mut i: usize = 0;
    while i < total
        invariant
            i <= total,
            total == n * n,
            nodes@.len() == i,
            adj@.len() == i,
            forall|a: int| 0 <= a < i ==> (#[trigger] adj@[a])@.len() == 0,
            forall|x: int|
                0 <= x < i ==> (#[trigger] nodes@[x]).spec_id() == x && nodes@[x].spec_lat() == 0
                    && nodes@[x].spec_lon() == 0,
        decreases total - i,
    {
        nodes.push(Node::new(i as u64, 0, 0));
        adj.push(Vec::new());
        i += 1;
    }
    proof {
        assert forall|x: int| 0 <= x < total implies (#[trigger] adj@[x])@ == grid_upto(n as int, x, 0) by {
            assert(adj@[x]@.len() == 0);
            if n > 0 {
                lemma_fundamental_div_mod(x, n as int);
                let r = x / n as int;
                assert(r > 0 ==> n * r >= n) by (nonlinear_arith)
                    requires n > 0;
            }
            assert(grid_upto(n as int, x, 0) =~= Seq::<Neighbor>::empty());
        }
    }
    let mut row: usize = 0;
    while row < n
        invariant
            total == n * n,
            nodes@.len() == total,
            adj@.len() == total,
            row <= n,
            forall|x: int|
                0 <= x < total ==> (#[trigger] nodes@[x]).spec_id() == x && nodes@[x].spec_lat() == 0
                    && nodes@[x].spec_lon() == 0,
            forall|x: int| 0 <= x < total ==> (#[trigger] adj@[x])@ == grid_upto(n as int, x, row * n),
        decreases n - row,
    {
        let mut col: usize = 0;
        while col < n
            invariant
                total == n * n,
                nodes@.len() == total,
                adj@.len() == total,
                row < n,
                col <= n,
                forall|x: int|
                    0 <= x < total ==> (#[trigger] nodes@[x]).spec_id() == x && nodes@[x].spec_lat() == 0
                        && nodes@[x].spec_lon() == 0,
                forall|x: int| 0 <= x < total ==> (#[trigger] adj@[x])@ == grid_upto(n as int, x, row * n + col),
            decreases n - col,
        {
            proof {
                assert(row * n + col < n * n) by (nonlinear_arith)
                    requires row < n, col < n;
                assert(col + 1 < n ==> row * n + col + 1 < n * n) by (nonlinear_arith)
                    requires row < n, col < n;
                assert(row + 1 < n ==> row * n + col + n < n * n) by (nonlinear_arith)
                    requires col < n;
            }
            let idx = row * n + col;
            let ghost before = adj@;
            if col + 1 < n {
                link(&mut adj, idx, idx + 1);
            }
            let ghost mid = adj@;
            if row + 1 < n {
                link(&mut adj, idx, idx + n);
            }
            proof {
                assert forall|x: int| 0 <= x < total implies (#[trigger] adj@[x])@ == grid_upto(
                    n as int,
                    x,
                    row * n + col + 1,
                ) by {
                    lemma_grid_step(n as int, row as int, col as int, x);
                    let i0 = idx as int;
                    if x == i0 {
                        assert(adj@[x]@ =~= before[x]@ + (if col + 1 < n {
                            seq![unit_edge(x + 1)]
                        } else {
                            Seq::empty()
                        }) + (if row + 1 < n {
                            seq![unit_edge(x + n)]
                        } else {
                            Seq::empty()
                        }));
                    } else if x == i0 + 1 && col + 1 < n {
                        assert(mid[x]@ == before[x]@.push(unit_edge(i0)));
                        if row + 1 < n {
                            assert(adj@[x] == mid[x]);
                        }
                    } else if x == i0 + n as int && row + 1 < n {
                        if col + 1 < n {
                            assert(mid[x] == before[x]);
                        }
                        assert(adj@[x]@ =~= before[x]@.push(unit_edge(i0)));
                    } else {
                        if col + 1 < n {
                            assert(mid[x] == before[x]);
                        }
                        if row + 1 < n {
                            assert(adj@[x] == mid[x]);
                        }
                    }
                }
            }
            col += 1;
        }
        proof {
            assert(row * n + n == (row + 1) * n) by (nonlinear_arith);
        }
        row += 1;
    }
    proof {
        assert(row * n == n * n);
        assert forall|u: int, j: int|
            0 <= u < adj@.len() && 0 <= j < adj@[u]@.len() implies (#[trigger] adj@[u]@[j]).node_index < nodes@.len() by {
            lemma_fundamental_div_mod(u, n as int);
            let r = u / n as int;
            let c = u % n as int;
            assert(n as int * r == r * n as int) by (nonlinear_arith);
            assert(r + 1 < n ==> u + n < n * n) by (nonlinear_arith)
                requires u == r * n + c, c < n;
            assert(r < n) by (nonlinear_arith)
                requires u == r * n + c, u < n * n, c >= 0, n > 0;
            assert(c + 1 < n ==> u + 1 < n * n) by (nonlinear_arith)
                requires u == r * n + c, r < n;
            assert(r > 0 ==> u - n >= 0) by (nonlinear_arith)
                requires u == r * n + c, c >= 0, n > 0;
            assert(adj@[u]@ == grid_upto(n as int, u, n * n));
        }
    }
    Graph::new(nodes, adj)
}

} // verus!
