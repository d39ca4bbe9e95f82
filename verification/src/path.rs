//! Shortest-path routing through the maze's floor-cell adjacency graph.
//!
//! `find_path` is a breadth-first search with uniform edge weight: it
//! returns one shortest route (as grid cells, start to end inclusive) when
//! start and end are floor cells connected through the graph, and `None`
//! otherwise.

use crate::graph::PathGraph;
use crate::maze::cells_adjacent;
use crate::maze::floor_path_ok;
use crate::maze::grid_idx;
use crate::maze::in_grid;
use crate::maze::lemma_grid_idx_bounds;
use crate::maze::lemma_grid_idx_divmod;
use crate::maze::reachable;
use crate::maze::tile_is_floor;
use crate::maze::Maze;
use crate::maze::Tile;
use vstd::prelude::*;
use vstd::set_lib::lemma_int_range;
use vstd::set_lib::lemma_len_subset;
use vstd::set_lib::set_int_range;
use vstd::set::axiom_set_insert_len;

verus! {

/// A route's cells as spec-level coordinates.
pub open spec fn route_cells(p: Seq<(usize, usize)>) -> Seq<(int, int)> {
    Seq::new(p.len(), |i: int| (p[i].0 as int, p[i].1 as int))
}

/// A valid route from `start` to `end`: a non-empty walk over floor tiles
/// whose first cell is `start` and whose last cell is `end`.
pub open spec fn route_ok(
    t: Seq<Tile>,
    w: int,
    h: int,
    p: Seq<(usize, usize)>,
    start: (usize, usize),
    end: (usize, usize),
) -> bool {
    &&& p.len() >= 1
    &&& p[0] == start
    &&& p.last() == end
    &&& floor_path_ok(t, w, h, route_cells(p))
}

/// Whether a BFS distance entry marks its node as discovered.
pub open spec fn bfs_visited(dist: Seq<usize>, n: int) -> bool {
    dist[n] != usize::MAX
}

/// Whether `n` occurs in the queue.
pub open spec fn in_queue(q: Seq<usize>, n: int) -> bool {
    exists|qi: int| 0 <= qi < q.len() && q[qi] == n
}

/// Whether `n` occurs in the not-yet-processed part of the queue.
pub open spec fn pending(q: Seq<usize>, head: int, n: int) -> bool {
    exists|qi: int| head <= qi < q.len() && q[qi] == n
}

/// Queue entries are ordered by nondecreasing BFS distance.
pub open spec fn queue_sorted(q: Seq<usize>, dist: Seq<usize>) -> bool {
    forall|i: int, j: int| 0 <= i <= j < q.len()
        ==> dist[#[trigger] q[i] as int] <= dist[#[trigger] q[j] as int]
}

/// All edges out of `u` have been relaxed: each neighbor is discovered, at
/// a distance at most one more than `u`'s.
pub open spec fn relaxed(g: PathGraph, dist: Seq<usize>, u: int) -> bool {
    forall|m: int| #[trigger] g.edge(u, m) ==> bfs_visited(dist, m) && dist[m] <= dist[u] + 1
}

/// The discovered nodes.
pub open spec fn visited_set(dist: Seq<usize>) -> Set<int> {
    Set::new(|n: int| 0 <= n < dist.len() && dist[n] != usize::MAX)
}

/// How many nodes have been discovered.
pub open spec fn visited_count(dist: Seq<usize>) -> int {
    visited_set(dist).len() as int
}

/// The discovered-node set is finite and no larger than the node count.
proof fn lemma_visited_finite(dist: Seq<usize>)
    ensures
        visited_set(dist).finite(),
        0 <= visited_count(dist) <= dist.len(),
{
    let r = set_int_range(0, dist.len() as int);
    lemma_int_range(0, dist.len() as int);
    lemma_len_subset(visited_set(dist), r);
}

/// Discovering one fresh node grows the discovered count by exactly one.
proof fn lemma_visit_one(dist: Seq<usize>, v: int, d: usize)
    requires
        0 <= v < dist.len(),
        dist[v] == usize::MAX,
        d != usize::MAX,
    ensures
        visited_count(dist.update(v, d)) == visited_count(dist) + 1,
        forall|n: int| 0 <= n < dist.len() && #[trigger] bfs_visited(dist, n)
            ==> bfs_visited(dist.update(v, d), n),
{
    lemma_visited_finite(dist);
    assert(visited_set(dist.update(v, d)) =~= visited_set(dist).insert(v));
    axiom_set_insert_len(visited_set(dist), v);
}

/// Membership in a queue survives pushing another entry.
proof fn lemma_in_queue_push(q: Seq<usize>, x: usize, n: int)
    requires
        in_queue(q, n),
    ensures
        in_queue(q.push(x), n),
{
    let qi = choose|qi: int| 0 <= qi < q.len() && q[qi] == n;
    assert(q.push(x)[qi] == n);
}

/// The node sitting on a floor cell `c`, by the coordinate-to-node mapping.
pub open spec fn node_at_cell(g: PathGraph, c: (int, int)) -> int {
    g.node_of_cell@[grid_idx(g.width as int, c)] as int
}

/// A floor cell has a node, and that node maps back to the same cell.
proof fn lemma_floor_node(g: PathGraph, t: Seq<Tile>, c: (int, int))
    requires
        g.wf(t),
        tile_is_floor(t, g.width as int, g.height as int, c),
    ensures
        0 <= node_at_cell(g, c) < g.spec_node_count(),
        g.node_cell(node_at_cell(g, c)) == c,
{
    let w = g.width as int;
    let h = g.height as int;
    lemma_grid_idx_bounds(w, h, c);
    lemma_grid_idx_divmod(w, h, c);
    let i = grid_idx(w, c);
    assert(g.node_of_cell@[i] != usize::MAX);
    let n = node_at_cell(g, c);
    assert(g.cell_of_node@[n] == i);
}

/// Two nodes over the same cell are the same node.
proof fn lemma_node_unique(g: PathGraph, t: Seq<Tile>, n1: int, n2: int)
    requires
        g.wf(t),
        0 <= n1 < g.spec_node_count(),
        0 <= n2 < g.spec_node_count(),
        g.node_cell(n1) == g.node_cell(n2),
    ensures
        n1 == n2,
{
    let w = g.width as int;
    let c1 = g.cell_of_node@[n1] as int;
    let c2 = g.cell_of_node@[n2] as int;
    vstd::arithmetic::div_mod::lemma_fundamental_div_mod(c1, w);
    vstd::arithmetic::div_mod::lemma_fundamental_div_mod(c2, w);
    assert(c1 == w * (c1 / w) + c1 % w && c2 == w * (c2 / w) + c2 % w);
    assert(c1 == c2);
    assert(g.node_of_cell@[c1] == n1 && g.node_of_cell@[c2] == n2);
}

/// Adjacent floor cells are joined by a graph edge between their nodes.
proof fn lemma_adjacent_edge(g: PathGraph, t: Seq<Tile>, a: (int, int), b: (int, int))
    requires
        g.wf(t),
        tile_is_floor(t, g.width as int, g.height as int, a),
        tile_is_floor(t, g.width as int, g.height as int, b),
        cells_adjacent(a, b),
    ensures
        g.edge(node_at_cell(g, a), node_at_cell(g, b)),
{
    lemma_floor_node(g, t, a);
    lemma_floor_node(g, t, b);
}

/// A node's cell is a floor tile.
proof fn lemma_node_floor(g: PathGraph, t: Seq<Tile>, n: int)
    requires
        g.wf(t),
        0 <= n < g.spec_node_count(),
    ensures
        tile_is_floor(t, g.width as int, g.height as int, g.node_cell(n)),
        node_at_cell(g, g.node_cell(n)) == n,
{
    let w = g.width as int;
    let h = g.height as int;
    let c = g.cell_of_node@[n] as int;
    vstd::arithmetic::div_mod::lemma_fundamental_div_mod(c, w);
    let q = g.node_cell(n);
    assert(c == q.1 * w + q.0) by (nonlinear_arith)
        requires
            c == w * (c / w) + (c % w),
            q == ((c % w), (c / w)),
    ;
    assert(q.1 < h) by (nonlinear_arith)
        requires
            c < w * h,
            q.1 == c / w,
            w >= 1,
    ;
    assert(in_grid(w, h, q));
    assert(grid_idx(w, q) == c);
    assert(g.node_of_cell@[c] == n);
    assert(g.node_of_cell@.len() <= 0x4000_0000) by (nonlinear_arith)
        requires
            g.width <= 32768,
            g.height <= 32768,
            g.node_of_cell@.len() == g.width * g.height,
    ;
    assert(n != usize::MAX as int);
}

/// Membership in the pending part of the queue survives pushing an entry.
proof fn lemma_pending_push(q: Seq<usize>, head: int, x: usize, n: int)
    requires
        0 <= head,
        pending(q, head, n),
    ensures
        pending(q.push(x), head, n),
{
    let qi = choose|qi: int| head <= qi < q.len() && q[qi] == n;
    assert(q.push(x)[qi] == n);
}

/// All the structural facts a breadth-first search maintains: the distance
/// and parent arrays span the nodes, the start node is discovered at
/// distance zero, the queue holds discovered nodes in nondecreasing
/// distance order, every discovered node is in the queue, distances stay
/// below the discovered count, and every discovered node other than the
/// start has a discovered parent one step closer to the start.
pub open spec fn bfs_core_inv(
    g: PathGraph,
    dist: Seq<usize>,
    parent: Seq<usize>,
    queue: Seq<usize>,
    sn: int,
) -> bool {
    let count = g.spec_node_count();
    &&& dist.len() == count
    &&& parent.len() == count
    &&& 0 <= sn < count
    &&& bfs_visited(dist, sn)
    &&& dist[sn] == 0
    &&& forall|qi: int| 0 <= qi < queue.len()
        ==> #[trigger] queue[qi] < count && bfs_visited(dist, queue[qi] as int)
    &&& forall|n: int| 0 <= n < count && #[trigger] bfs_visited(dist, n) ==> in_queue(queue, n)
    &&& queue_sorted(queue, dist)
    &&& forall|n: int| 0 <= n < count && #[trigger] bfs_visited(dist, n)
        ==> dist[n] + 1 <= visited_count(dist)
    &&& visited_count(dist) <= count
    &&& forall|n: int| 0 <= n < count && #[trigger] bfs_visited(dist, n) && n != sn
        ==> parent[n] < count && bfs_visited(dist, parent[n] as int)
            && g.edge(parent[n] as int, n) && dist[n] == dist[parent[n] as int] + 1
}

/// Discovering a fresh neighbor `v` of the node `u` under processing (at
/// distance one past `u`'s) preserves the core search invariant, keeps all
/// established distances, keeps relaxed nodes relaxed, and leaves `v`
/// pending.
#[verifier::rlimit(100)]
proof fn lemma_bfs_push(
    g: PathGraph,
    dist1: Seq<usize>,
    dist2: Seq<usize>,
    parent1: Seq<usize>,
    parent2: Seq<usize>,
    queue1: Seq<usize>,
    queue2: Seq<usize>,
    sn: usize,
    u: usize,
    v: usize,
    du: usize,
    head: int,
)
    requires
        bfs_core_inv(g, dist1, parent1, queue1, sn as int),
        u < g.spec_node_count(),
        bfs_visited(dist1, u as int),
        dist1[u as int] == du,
        1 <= head <= queue1.len(),
        queue1[head - 1] == u,
        v < g.spec_node_count(),
        !bfs_visited(dist1, v as int),
        g.edge(u as int, v as int),
        du + 1 < usize::MAX,
        dist2 == dist1.update(v as int, (du + 1) as usize),
        parent2 == parent1.update(v as int, u),
        queue2 == queue1.push(v),
        dist1[queue1[queue1.len() - 1] as int] <= du + 1,
    ensures
        bfs_core_inv(g, dist2, parent2, queue2, sn as int),
        visited_count(dist2) == visited_count(dist1) + 1,
        bfs_visited(dist2, v as int),
        dist2[v as int] == du + 1,
        queue2[head - 1] == u,
        head <= queue2.len(),
        dist2[queue2[queue2.len() - 1] as int] <= du + 1,
        forall|n: int| 0 <= n < dist1.len() && #[trigger] bfs_visited(dist1, n)
            ==> bfs_visited(dist2, n) && dist2[n] == dist1[n],
        forall|n: int| 0 <= n < dist1.len() && bfs_visited(dist1, n)
            && #[trigger] relaxed(g, dist1, n) ==> relaxed(g, dist2, n),
        pending(queue2, head, v as int),
{
    let count = g.spec_node_count();
    lemma_visit_one(dist1, v as int, (du + 1) as usize);
    lemma_visited_finite(dist2);
    // old entries keep their distances
    assert forall|n: int| 0 <= n < dist1.len() && #[trigger] bfs_visited(dist1, n)
        implies bfs_visited(dist2, n) && dist2[n] == dist1[n] by {
        assert(n != v as int);
    }
    // relaxed nodes stay relaxed: their neighbors were already discovered,
    // so none of them is `v`
    assert forall|n: int| 0 <= n < dist1.len() && bfs_visited(dist1, n)
        && #[trigger] relaxed(g, dist1, n) implies relaxed(g, dist2, n) by {
        assert forall|m: int| #[trigger] g.edge(n, m)
            implies bfs_visited(dist2, m) && dist2[m] <= dist2[n] + 1 by {
            assert(bfs_visited(dist1, m) && dist1[m] <= dist1[n] + 1);
            assert(m != v as int);
        }
    }
    // every discovered node is still in the queue
    assert forall|n: int| 0 <= n < count && #[trigger] bfs_visited(dist2, n)
        implies in_queue(queue2, n) by {
        if n == v as int {
            assert(queue2[queue2.len() - 1] == v);
        } else {
            assert(bfs_visited(dist1, n));
            lemma_in_queue_push(queue1, v, n);
        }
    }
    // the queue stays sorted by distance: the new last entry has the
    // largest distance seen so far
    assert forall|i: int, j: int| 0 <= i <= j < queue2.len()
        implies dist2[#[trigger] queue2[i] as int] <= dist2[#[trigger] queue2[j] as int] by {
        if j < queue1.len() {
            assert(queue2[i] == queue1[i] && queue2[j] == queue1[j]);
            assert(dist1[queue1[i] as int] <= dist1[queue1[j] as int]);
        } else if i < queue1.len() {
            assert(queue2[i] == queue1[i] && queue2[j] == v);
            assert(dist1[queue1[i] as int] <= dist1[queue1[queue1.len() - 1] as int]);
        }
    }
    // distances stay below the discovered count
    assert forall|n: int| 0 <= n < count && #[trigger] bfs_visited(dist2, n)
        implies dist2[n] + 1 <= visited_count(dist2) by {
        if n != v as int {
            assert(bfs_visited(dist1, n));
        }
    }
    // parent facts: `v` gets `u`; everyone else keeps theirs
    assert forall|n: int| 0 <= n < count && #[trigger] bfs_visited(dist2, n) && n != sn as int
        implies parent2[n] < count && bfs_visited(dist2, parent2[n] as int)
            && g.edge(parent2[n] as int, n) && dist2[n] == dist2[parent2[n] as int] + 1 by {
        if n == v as int {
            assert(parent2[n] == u);
        } else {
            assert(bfs_visited(dist1, n));
            assert(parent1[n] != v);
        }
    }
    assert(pending(queue2, head, v as int)) by {
        assert(queue2[queue2.len() - 1] == v);
    }
}

/// Once the search has relaxed every discovered node, any floor walk that
/// begins at the start cell ends at a discovered node whose distance is at
/// most the number of the walk's steps.  This is the key fact behind both
/// minimality and completeness of the search.
proof fn lemma_bfs_lower_bound(
    g: PathGraph,
    t: Seq<Tile>,
    dist: Seq<usize>,
    start: (int, int),
    q: Seq<(int, int)>,
)
    requires
        g.wf(t),
        dist.len() == g.spec_node_count(),
        tile_is_floor(t, g.width as int, g.height as int, start),
        bfs_visited(dist, node_at_cell(g, start)),
        dist[node_at_cell(g, start)] == 0,
        forall|u: int| 0 <= u < g.spec_node_count() && #[trigger] bfs_visited(dist, u)
            ==> relaxed(g, dist, u),
        floor_path_ok(t, g.width as int, g.height as int, q),
        q[0] == start,
    ensures
        bfs_visited(dist, node_at_cell(g, q.last())),
        dist[node_at_cell(g, q.last())] <= q.len() - 1,
    decreases q.len(),
{
    let w = g.width as int;
    let h = g.height as int;
    if q.len() == 1 {
        assert(q.last() == start);
    } else {
        let q2 = q.drop_last();
        assert(floor_path_ok(t, w, h, q2)) by {
            assert forall|i: int| 0 <= i < q2.len() implies tile_is_floor(t, w, h, #[trigger] q2[i]) by {
                assert(q2[i] == q[i]);
            }
            assert forall|i: int| 0 <= i < q2.len() - 1 implies cells_adjacent(#[trigger] q2[i], q2[i + 1]) by {
                assert(q2[i] == q[i] && q2[i + 1] == q[i + 1]);
            }
        }
        assert(q2[0] == start);
        lemma_bfs_lower_bound(g, t, dist, start, q2);
        let a = q2.last();
        let b = q.last();
        assert(a == q[q.len() - 2] && cells_adjacent(a, b)) by {
            assert(q2.last() == q[q.len() - 2]);
        }
        assert(tile_is_floor(t, w, h, a) && tile_is_floor(t, w, h, b));
        lemma_adjacent_edge(g, t, a, b);
        let na = node_at_cell(g, a);
        let nb = node_at_cell(g, b);
        lemma_floor_node(g, t, a);
        assert(bfs_visited(dist, na) && relaxed(g, dist, na));
        assert(g.edge(na, nb));
        assert(bfs_visited(dist, nb) && dist[nb] <= dist[na] + 1);
    }
}

/// Assemble the final route facts: a cell list that reverses the recorded
/// parent chain from the end node back to the start node is a valid route
/// from start to end, witnesses reachability, and is no longer than any
/// other floor walk between the two cells.
#[verifier::rlimit(100)]
proof fn lemma_route_assemble(
    g: PathGraph,
    t: Seq<Tile>,
    dist: Seq<usize>,
    rev0: Seq<(usize, usize)>,
    path: Seq<(usize, usize)>,
    sn: usize,
    en: usize,
    den: usize,
    start: (usize, usize),
    end: (usize, usize),
)
    requires
        g.wf(t),
        dist.len() == g.spec_node_count(),
        sn < g.spec_node_count(),
        en < g.spec_node_count(),
        bfs_visited(dist, sn as int),
        dist[sn as int] == 0,
        g.node_cell(sn as int) == (start.0 as int, start.1 as int),
        g.node_cell(en as int) == (end.0 as int, end.1 as int),
        den == dist[en as int],
        forall|u: int| 0 <= u < g.spec_node_count() && #[trigger] bfs_visited(dist, u)
            ==> relaxed(g, dist, u),
        rev0.len() == den + 1,
        (rev0[0].0 as int, rev0[0].1 as int) == g.node_cell(en as int),
        (rev0.last().0 as int, rev0.last().1 as int) == g.node_cell(sn as int),
        forall|j: int| 0 <= j < rev0.len()
            ==> tile_is_floor(t, g.width as int, g.height as int,
                (#[trigger] rev0[j].0 as int, rev0[j].1 as int)),
        forall|j: int| 0 <= j < rev0.len() - 1
            ==> cells_adjacent(
                (#[trigger] rev0[j + 1].0 as int, rev0[j + 1].1 as int),
                (rev0[j].0 as int, rev0[j].1 as int),
            ),
        path.len() == rev0.len(),
        forall|j: int| 0 <= j < path.len() ==> #[trigger] path[j] == rev0[rev0.len() - 1 - j],
    ensures
        route_ok(t, g.width as int, g.height as int, path, start, end),
        reachable(t, g.width as int, g.height as int, (start.0 as int, start.1 as int),
            (end.0 as int, end.1 as int)),
        forall|q: Seq<(int, int)>|
            #[trigger] floor_path_ok(t, g.width as int, g.height as int, q)
                && q[0] == (start.0 as int, start.1 as int)
                && q.last() == (end.0 as int, end.1 as int)
                ==> q.len() >= path.len(),
{
    let wi = g.width as int;
    let hi = g.height as int;
    let sc = (start.0 as int, start.1 as int);
    let ec = (end.0 as int, end.1 as int);
    lemma_node_floor(g, t, sn as int);
    lemma_node_floor(g, t, en as int);
    // endpoints: the reconstruction ran from the end node back to the start
    assert(path[0] == rev0[rev0.len() - 1]);
    assert((rev0[rev0.len() - 1].0 as int, rev0[rev0.len() - 1].1 as int) == sc);
    assert(path[0] == start);
    assert(path.last() == rev0[0]);
    assert((rev0[0].0 as int, rev0[0].1 as int) == ec);
    assert(path.last() == end);
    // the route is a walk over floor tiles
    let rc = route_cells(path);
    assert forall|j: int| 0 <= j < rc.len() implies tile_is_floor(t, wi, hi, #[trigger] rc[j]) by {
        assert(path[j] == rev0[rev0.len() - 1 - j]);
    }
    assert forall|j: int| 0 <= j < rc.len() - 1 implies cells_adjacent(#[trigger] rc[j], rc[j + 1]) by {
        assert(path[j] == rev0[rev0.len() - 1 - j]);
        assert(path[j + 1] == rev0[rev0.len() - 2 - j]);
        let jj = rev0.len() - 2 - j;
        assert(cells_adjacent(
            (rev0[jj + 1].0 as int, rev0[jj + 1].1 as int),
            (rev0[jj].0 as int, rev0[jj].1 as int),
        ));
        assert(rev0[jj + 1] == path[j] && rev0[jj] == path[j + 1]);
    }
    assert(floor_path_ok(t, wi, hi, rc));
    assert(route_ok(t, wi, hi, path, start, end));
    // minimality: any floor walk from start to end ends at the end node,
    // whose search distance bounds the walk's length from below
    assert forall|q: Seq<(int, int)>|
        #[trigger] floor_path_ok(t, wi, hi, q) && q[0] == sc && q.last() == ec
        implies q.len() >= path.len() by {
        lemma_bfs_lower_bound(g, t, dist, sc, q);
        lemma_floor_node(g, t, ec);
        lemma_node_unique(g, t, en as int, node_at_cell(g, ec));
    }
    // the route itself witnesses reachability
    reveal(reachable);
    assert(rc[0] == sc && rc.last() == ec);
    assert(reachable(t, wi, hi, sc, ec));
}

/// Find a shortest route between two cells of the maze, as a sequence of
/// grid cells from `start` to `end` inclusive.
///
/// Returns `Some` exactly when both cells are floor tiles and `end` is
/// reachable from `start`; the returned route is a walk over floor tiles no
/// longer than any other such walk.  Tie-breaking among equally short
/// routes is unspecified.
#[verifier::rlimit(100)]
pub fn find_path(maze: &Maze, start: (usize, usize), end: (usize, usize)) -> (r: Option<
    Vec<(usize, usize)>,
>)
    requires
        maze.wf(),
    ensures
        match r {
            Some(p) => {
                &&& route_ok(maze.tiles@, maze.width as int, maze.height as int, p@, start, end)
                &&& reachable(maze.tiles@, maze.width as int, maze.height as int,
                    (start.0 as int, start.1 as int), (end.0 as int, end.1 as int))
                &&& forall|q: Seq<(int, int)>|
                    #[trigger] floor_path_ok(maze.tiles@, maze.width as int, maze.height as int, q)
                        && q[0] == (start.0 as int, start.1 as int)
                        && q.last() == (end.0 as int, end.1 as int)
                        ==> q.len() >= p@.len()
            },
            None => !{
                &&& tile_is_floor(maze.tiles@, maze.width as int, maze.height as int,
                    (start.0 as int, start.1 as int))
                &&& tile_is_floor(maze.tiles@, maze.width as int, maze.height as int,
                    (end.0 as int, end.1 as int))
                &&& reachable(maze.tiles@, maze.width as int, maze.height as int,
                    (start.0 as int, start.1 as int), (end.0 as int, end.1 as int))
            },
        },
{
    let ghost wi: int = maze.width as int;
    let ghost hi: int = maze.height as int;
    let ghost t: Seq<Tile> = maze.tiles@;
    let ghost sc: (int, int) = (start.0 as int, start.1 as int);
    let ghost ec: (int, int) = (end.0 as int, end.1 as int);
    let sn = match maze.graph.node_of(start.0, start.1, &maze.tiles) {
        Some(n) => n,
        None => {
            return None;
        },
    };
    let en = match maze.graph.node_of(end.0, end.1, &maze.tiles) {
        Some(n) => n,
        None => {
            return None;
        },
    };
    proof {
        lemma_floor_node(maze.graph, t, sc);
        lemma_node_unique(maze.graph, t, sn as int, node_at_cell(maze.graph, sc));
        lemma_floor_node(maze.graph, t, ec);
        lemma_node_unique(maze.graph, t, en as int, node_at_cell(maze.graph, ec));
    }
    let ghost cnt: int = maze.graph.spec_node_count();
    proof {
        assert(maze.graph.node_of_cell@.len() <= 0x4000_0000) by (nonlinear_arith)
            requires
                maze.graph.width <= 32768,
                maze.graph.height <= 32768,
                maze.graph.node_of_cell@.len() == maze.graph.width * maze.graph.height,
        ;
    }
    let count = maze.graph.node_count();
    let mut dist: Vec<usize> = Vec::new();
    let mut parent: Vec<usize> = Vec::new();
    let mut i: usize = 0;
    while i < count
        invariant
            i <= count,
            dist@.len() == i,
            parent@.len() == i,
            forall|j: int| 0 <= j < i ==> dist@[j] == usize::MAX && parent@[j] == 0,
        decreases count - i,
    {
        dist.push(usize::MAX);
        parent.push(0);
        i = i + 1;
    }
    proof {
        assert(visited_set(dist@) =~= Set::empty());
    }
    let ghost dist0 = dist@;
    dist.set(sn, 0);
    let mut queue: Vec<usize> = Vec::new();
    queue.push(sn);
    let mut head: usize = 0;
    proof {
        lemma_visit_one(dist0, sn as int, 0);
        assert forall|n: int| 0 <= n < cnt && #[trigger] bfs_visited(dist@, n)
            implies n == sn as int by {
            if n != sn as int {
                assert(dist@[n] == dist0[n]);
            }
        }
        assert(in_queue(queue@, sn as int)) by {
            assert(queue@[0] == sn);
        }
        assert(pending(queue@, 0, sn as int)) by {
            assert(queue@[0] == sn);
        }
        assert(bfs_core_inv(maze.graph, dist@, parent@, queue@, sn as int));
    }
    while head < queue.len()
        invariant
            maze.wf(),
            cnt == maze.graph.spec_node_count(),
            cnt <= 0x4000_0000,
            bfs_core_inv(maze.graph, dist@, parent@, queue@, sn as int),
            sn < cnt,
            en < cnt,
            head <= queue@.len(),
            forall|n: int| 0 <= n < cnt && #[trigger] bfs_visited(dist@, n)
                ==> relaxed(maze.graph, dist@, n) || pending(queue@, head as int, n),
            head < queue@.len()
                ==> dist@[queue@[queue@.len() - 1] as int] <= dist@[queue@[head as int] as int] + 1,
        decreases (cnt - visited_count(dist@)) + (queue@.len() - head),
    {
        let u = queue[head];
        head = head + 1;
        let du = dist[u];
        let ghost diff: int = visited_count(dist@) - queue@.len();
        proof {
            lemma_visited_finite(dist@);
            assert(du + 1 < usize::MAX);
            assert(dist@[queue@[queue@.len() - 1] as int] <= du + 1) by {
                if head - 1 < queue@.len() - 1 {
                    assert(dist@[queue@[head - 1] as int] == du);
                } else {
                    assert(queue@[queue@.len() - 1] == u);
                }
            }
        }
        let nbrs = maze.graph.neighbors(u);
        let mut k: usize = 0;
        while k < nbrs.len()
            invariant
                maze.wf(),
                cnt == maze.graph.spec_node_count(),
                cnt <= 0x4000_0000,
                bfs_core_inv(maze.graph, dist@, parent@, queue@, sn as int),
                sn < cnt,
                en < cnt,
                1 <= head <= queue@.len(),
                queue@[head - 1] == u,
                u < cnt,
                bfs_visited(dist@, u as int),
                dist@[u as int] == du,
                du + 1 < usize::MAX,
                k <= nbrs@.len(),
                forall|kk: int| 0 <= kk < nbrs@.len()
                    ==> maze.graph.edge(u as int, #[trigger] nbrs@[kk] as int),
                forall|m: int| #[trigger] maze.graph.edge(u as int, m)
                    ==> exists|kk: int| 0 <= kk < nbrs@.len() && nbrs@[kk] == m,
                forall|j: int| 0 <= j < k
                    ==> bfs_visited(dist@, #[trigger] nbrs@[j] as int)
                        && dist@[nbrs@[j] as int] <= du + 1,
                forall|n: int| 0 <= n < cnt && #[trigger] bfs_visited(dist@, n)
                    ==> relaxed(maze.graph, dist@, n) || pending(queue@, head as int, n)
                        || n == u as int,
                dist@[queue@[queue@.len() - 1] as int] <= du + 1,
                visited_count(dist@) - queue@.len() == diff,
            decreases nbrs@.len() - k,
        {
            let v = nbrs[k];
            proof {
                assert(maze.graph.edge(u as int, nbrs@[k as int] as int));
            }
            if dist[v] == usize::MAX {
                let ghost dist_pre = dist@;
                let ghost parent_pre = parent@;
                let ghost queue_pre = queue@;
                dist.set(v, du + 1);
                parent.set(v, u);
                queue.push(v);
                proof {
                    lemma_bfs_push(
                        maze.graph, dist_pre, dist@, parent_pre, parent@, queue_pre, queue@,
                        sn, u, v, du, head as int,
                    );
                    assert forall|n: int| 0 <= n < cnt && #[trigger] bfs_visited(dist@, n)
                        implies relaxed(maze.graph, dist@, n)
                            || pending(queue@, head as int, n) || n == u as int by {
                        if n != v as int {
                            assert(bfs_visited(dist_pre, n));
                            if pending(queue_pre, head as int, n) {
                                lemma_pending_push(queue_pre, head as int, v, n);
                            }
                        }
                    }
                }
            } else {
                proof {
                    // an already discovered neighbor sits somewhere in the
                    // queue, so its distance is at most the last entry's
                    assert(bfs_visited(dist@, v as int));
                    assert(in_queue(queue@, v as int));
                    let qi = choose|qi: int| 0 <= qi < queue@.len() && queue@[qi] == v;
                    assert(queue@[qi] == v);
                    assert(dist@[queue@[qi] as int] <= dist@[queue@[queue@.len() - 1] as int]);
                }
            }
            k = k + 1;
        }
        proof {
            // all edges out of `u` are now relaxed
            assert forall|m: int| #[trigger] maze.graph.edge(u as int, m)
                implies bfs_visited(dist@, m) && dist@[m] <= dist@[u as int] + 1 by {
                let kk = choose|kk: int| 0 <= kk < nbrs@.len() && nbrs@[kk] == m;
                assert(bfs_visited(dist@, nbrs@[kk] as int));
            }
            assert(relaxed(maze.graph, dist@, u as int));
            assert forall|n: int| 0 <= n < cnt && #[trigger] bfs_visited(dist@, n)
                implies relaxed(maze.graph, dist@, n) || pending(queue@, head as int, n) by {}
            if head < queue@.len() {
                assert(dist@[queue@[head - 1] as int] <= dist@[queue@[head as int] as int]);
            }
        }
    }
    proof {
        // the queue is exhausted: every discovered node is relaxed
        assert forall|n: int| 0 <= n < cnt && #[trigger] bfs_visited(dist@, n)
            implies relaxed(maze.graph, dist@, n) by {
            if pending(queue@, head as int, n) {
                let qi = choose|qi: int| head <= qi < queue@.len() && queue@[qi] == n;
                assert(false);
            }
        }
    }
    let den = dist[en];
    if den == usize::MAX {
        proof {
            assert(!reachable(t, wi, hi, sc, ec)) by {
                if reachable(t, wi, hi, sc, ec) {
                    reveal(reachable);
                    let q = choose|q: Seq<(int, int)>|
                        floor_path_ok(t, wi, hi, q) && q[0] == sc && q.last() == ec;
                    lemma_bfs_lower_bound(maze.graph, t, dist@, sc, q);
                    lemma_floor_node(maze.graph, t, ec);
                    assert(bfs_visited(dist@, en as int));
                }
            }
        }
        return None;
    }
    // walk the parent links back from the end node, then reverse
    let mut rev: Vec<(usize, usize)> = Vec::new();
    let c_end = maze.graph.cell_of(en);
    rev.push(c_end);
    let mut cur: usize = en;
    proof {
        lemma_node_floor(maze.graph, t, en as int);
    }
    while cur != sn
        invariant
            maze.wf(),
            wi == maze.width as int,
            hi == maze.height as int,
            cnt == maze.graph.spec_node_count(),
            bfs_core_inv(maze.graph, dist@, parent@, queue@, sn as int),
            sn < cnt,
            en < cnt,
            cur < cnt,
            bfs_visited(dist@, cur as int),
            bfs_visited(dist@, en as int),
            den == dist@[en as int],
            dist@[cur as int] <= den,
            rev@.len() == den - dist@[cur as int] + 1,
            (rev@[0].0 as int, rev@[0].1 as int) == maze.graph.node_cell(en as int),
            (rev@.last().0 as int, rev@.last().1 as int) == maze.graph.node_cell(cur as int),
            forall|j: int| 0 <= j < rev@.len()
                ==> tile_is_floor(t, wi, hi, (#[trigger] rev@[j].0 as int, rev@[j].1 as int)),
            forall|j: int| 0 <= j < rev@.len() - 1
                ==> cells_adjacent(
                    (#[trigger] rev@[j + 1].0 as int, rev@[j + 1].1 as int),
                    (rev@[j].0 as int, rev@[j].1 as int),
                ),
            t == maze.tiles@,
        decreases dist@[cur as int],
    {
        let pa = parent[cur];
        proof {
            assert(bfs_visited(dist@, cur as int) && cur as int != sn as int);
            lemma_node_floor(maze.graph, t, pa as int);
        }
        let ghost rev_pre = rev@;
        let c = maze.graph.cell_of(pa);
        rev.push(c);
        cur = pa;
        proof {
            assert forall|j: int| 0 <= j < rev@.len()
                implies tile_is_floor(t, wi, hi, (#[trigger] rev@[j].0 as int, rev@[j].1 as int)) by {
                if j < rev_pre.len() {
                    assert(rev@[j] == rev_pre[j]);
                } else {
                    assert((rev@[j].0 as int, rev@[j].1 as int) == maze.graph.node_cell(pa as int));
                }
            }
        }
    }
    let ghost rev0 = rev@;
    let mut path: Vec<(usize, usize)> = Vec::new();
    while rev.len() > 0
        invariant
            path@.len() + rev@.len() == rev0.len(),
            rev@ == rev0.subrange(0, rev@.len() as int),
            forall|j: int| 0 <= j < path@.len()
                ==> #[trigger] path@[j] == rev0[rev0.len() - 1 - j],
        decreases rev@.len(),
    {
        let ghost rev_pre = rev@;
        let c = rev.pop().unwrap();
        path.push(c);
        proof {
            assert(rev_pre[rev_pre.len() - 1] == rev0[rev_pre.len() - 1]);
            assert(rev@ =~= rev0.subrange(0, rev@.len() as int));
        }
    }
    proof {
        lemma_route_assemble(maze.graph, t, dist@, rev0, path@, sn, en, den, start, end);
    }
    Some(path)
}

} // verus!
