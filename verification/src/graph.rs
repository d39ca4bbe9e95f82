//! The floor-cell adjacency graph of a maze.
//!
//! Every floor tile gets exactly one node; walls get none.  The graph keeps
//! a bidirectional mapping between grid cells and node identities
//! (coordinate to node for edge queries, node to coordinate for path
//! reconstruction).  Two nodes are connected by an edge exactly when their
//! cells are 4-directionally adjacent on the grid.

use crate::maze::cells_adjacent;
use crate::maze::grid_idx;
use crate::maze::in_grid;
use crate::maze::lemma_grid_idx_bounds;
use crate::maze::lemma_grid_idx_divmod;
use crate::maze::tile_is_floor;
use crate::maze::Tile;
use vstd::prelude::*;

verus! {

/// The adjacency graph over the floor cells of a maze.
///
/// `node_of_cell` maps a flat cell index to its node identity, with
/// `usize::MAX` as the "no node here" marker for walls; `cell_of_node` maps
/// a node back to its flat cell index.  Edges are given by grid adjacency
/// of the mapped cells.
pub struct PathGraph {
    pub width: usize,
    pub height: usize,
    pub node_of_cell: Vec<usize>,
    pub cell_of_node: Vec<usize>,
}

impl PathGraph {
    /// How many nodes the graph has.
    pub open spec fn spec_node_count(self) -> int {
        self.cell_of_node@.len() as int
    }

    /// The cell of node `n`, as coordinates.
    pub open spec fn node_cell(self, n: int) -> (int, int) {
        let c = self.cell_of_node@[n] as int;
        (c % (self.width as int), c / (self.width as int))
    }

    /// Internal consistency of the two mappings: they are mutually inverse
    /// bijections between the marked cells and the node identities.
    pub open spec fn wf_mapping(self) -> bool {
        &&& 1 <= self.width <= 32768
        &&& 1 <= self.height <= 32768
        &&& self.node_of_cell@.len() == self.width * self.height
        &&& self.cell_of_node@.len() <= self.node_of_cell@.len()
        &&& forall|i: int| 0 <= i < self.node_of_cell@.len()
            && #[trigger] self.node_of_cell@[i] != usize::MAX
            ==> self.node_of_cell@[i] < self.cell_of_node@.len()
                && self.cell_of_node@[self.node_of_cell@[i] as int] == i
        &&& forall|n: int| 0 <= n < self.cell_of_node@.len()
            ==> #[trigger] self.cell_of_node@[n] < self.node_of_cell@.len()
                && self.node_of_cell@[self.cell_of_node@[n] as int] == n
    }

    /// Agreement with a tile grid: exactly the floor cells carry a node.
    pub open spec fn matches_tiles(self, t: Seq<Tile>) -> bool {
        &&& t.len() == self.width * self.height
        &&& forall|i: int| 0 <= i < t.len()
            ==> (t[i] is Floor <==> #[trigger] self.node_of_cell@[i] != usize::MAX)
    }

    /// Well-formedness with respect to the maze's tiles.
    pub open spec fn wf(self, t: Seq<Tile>) -> bool {
        self.wf_mapping() && self.matches_tiles(t)
    }

    /// Whether the graph has an edge between nodes `a` and `b`: both exist
    /// and their cells are 4-adjacent.
    pub open spec fn edge(self, a: int, b: int) -> bool {
        &&& 0 <= a < self.spec_node_count()
        &&& 0 <= b < self.spec_node_count()
        &&& cells_adjacent(self.node_cell(a), self.node_cell(b))
    }

    /// Build the graph of a tile grid: allocate one node per floor cell, in
    /// row-major order, and record the mapping in both directions.
    pub fn build(width: usize, height: usize, tiles: &Vec<Tile>) -> (g: PathGraph)
        requires
            1 <= width <= 32768,
            1 <= height <= 32768,
            tiles@.len() == width * height,
        ensures
            g.wf(tiles@),
            g.width == width,
            g.height == height,
    {
        proof {
            assert(width * height <= 0x4000_0000) by (nonlinear_arith)
                requires
                    width <= 32768,
                    height <= 32768,
            ;
        }
        let n = width * height;
        let mut node_of_cell: Vec<usize> = Vec::new();
        let mut cell_of_node: Vec<usize> = Vec::new();
        let mut i: usize = 0;
        while i < n
            invariant
                i <= n,
                n <= 0x4000_0000,
                n == tiles@.len(),
                node_of_cell@.len() == i,
                cell_of_node@.len() <= i,
                forall|j: int| 0 <= j < i
                    ==> (tiles@[j] is Floor <==> #[trigger] node_of_cell@[j] != usize::MAX),
                forall|j: int| 0 <= j < i && #[trigger] node_of_cell@[j] != usize::MAX
                    ==> node_of_cell@[j] < cell_of_node@.len()
                        && cell_of_node@[node_of_cell@[j] as int] == j,
                forall|m: int| 0 <= m < cell_of_node@.len()
                    ==> #[trigger] cell_of_node@[m] < i
                        && node_of_cell@[cell_of_node@[m] as int] == m,
            decreases n - i,
        {
            if matches!(tiles[i], Tile::Floor) {
                node_of_cell.push(cell_of_node.len());
                cell_of_node.push(i);
            } else {
                node_of_cell.push(usize::MAX);
            }
            i = i + 1;
        }
        PathGraph { width, height, node_of_cell, cell_of_node }
    }

    /// How many nodes the graph has.
    pub fn node_count(&self) -> (r: usize)
        ensures
            r == self.spec_node_count(),
    {
        self.cell_of_node.len()
    }

    /// The node of the cell `(x, y)`, or `None` if that cell has no node
    /// (it is a wall or out of bounds).
    pub fn node_of(&self, x: usize, y: usize, tiles: &Vec<Tile>) -> (r: Option<usize>)
        requires
            self.wf(tiles@),
        ensures
            match r {
                Some(n) => tile_is_floor(tiles@, self.width as int, self.height as int, (x as int, y as int))
                    && 0 <= n < self.spec_node_count()
                    && self.node_cell(n as int) == (x as int, y as int),
                None => !tile_is_floor(tiles@, self.width as int, self.height as int, (x as int, y as int)),
            },
    {
        if x >= self.width || y >= self.height {
            return None;
        }
        proof {
            assert(self.width * self.height <= 0x4000_0000) by (nonlinear_arith)
                requires
                    self.width <= 32768,
                    self.height <= 32768,
            ;
            lemma_grid_idx_bounds(self.width as int, self.height as int, (x as int, y as int));
            lemma_grid_idx_divmod(self.width as int, self.height as int, (x as int, y as int));
        }
        let idx = y * self.width + x;
        let n = self.node_of_cell[idx];
        if n != usize::MAX {
            Some(n)
        } else {
            None
        }
    }

    /// The neighbors of node `n`: exactly the nodes whose cells are
    /// 4-adjacent to `n`'s cell.
    #[verifier::rlimit(100)]
    pub fn neighbors(&self, n: usize) -> (r: Vec<usize>)
        requires
            self.wf_mapping(),
            n < self.spec_node_count(),
        ensures
            forall|k: int| 0 <= k < r@.len() ==> self.edge(n as int, #[trigger] r@[k] as int),
            forall|m: int| #[trigger] self.edge(n as int, m)
                ==> exists|k: int| 0 <= k < r@.len() && r@[k] == m,
    {
        let ghost wi: int = self.width as int;
        let ghost hi: int = self.height as int;
        proof {
            assert(self.width * self.height <= 0x4000_0000) by (nonlinear_arith)
                requires
                    self.width <= 32768,
                    self.height <= 32768,
            ;
        }
        let cell = self.cell_of_node[n];
        let x = cell % self.width;
        let y = cell / self.width;
        let ghost p: (int, int) = (x as int, y as int);
        proof {
            vstd::arithmetic::div_mod::lemma_fundamental_div_mod(cell as int, self.width as int);
            assert(y < self.height) by (nonlinear_arith)
                requires
                    cell < self.width * self.height,
                    y == cell as int / self.width as int,
                    self.width >= 1,
            ;
            assert(cell as int == (y as int) * wi + (x as int)) by (nonlinear_arith)
                requires
                    cell as int == wi * (cell as int / wi) + (cell as int % wi),
                    y as int == cell as int / wi,
                    x as int == cell as int % wi,
            ;
            assert((y as int - 1) * wi == (y as int) * wi - wi) by (nonlinear_arith);
            assert((y as int + 1) * wi == (y as int) * wi + wi) by (nonlinear_arith);
            assert(grid_idx(wi, p) == cell);
            assert(self.node_cell(n as int) == p);
        }
        let mut r: Vec<usize> = Vec::new();
        let ghost mut kl: int = -1;
        let ghost mut kr: int = -1;
        let ghost mut ku: int = -1;
        let ghost mut kd: int = -1;
        if x > 0 {
            proof { lemma_grid_idx_bounds(wi, hi, (x - 1, y as int)); }
            let m = self.node_of_cell[cell - 1];
            if m != usize::MAX {
                proof {
                    kl = r@.len() as int;
                    lemma_grid_idx_divmod(wi, hi, (x - 1, y as int));
                }
                r.push(m);
            }
        }
        if x + 1 < self.width {
            proof { lemma_grid_idx_bounds(wi, hi, (x + 1, y as int)); }
            let m = self.node_of_cell[cell + 1];
            if m != usize::MAX {
                proof {
                    kr = r@.len() as int;
                    lemma_grid_idx_divmod(wi, hi, (x + 1, y as int));
                }
                r.push(m);
            }
        }
        if y > 0 {
            proof { lemma_grid_idx_bounds(wi, hi, (x as int, y - 1)); }
            let m = self.node_of_cell[cell - self.width];
            if m != usize::MAX {
                proof {
                    ku = r@.len() as int;
                    lemma_grid_idx_divmod(wi, hi, (x as int, y - 1));
                }
                r.push(m);
            }
        }
        if y + 1 < self.height {
            proof { lemma_grid_idx_bounds(wi, hi, (x as int, y + 1)); }
            let m = self.node_of_cell[cell + self.width];
            if m != usize::MAX {
                proof {
                    kd = r@.len() as int;
                    lemma_grid_idx_divmod(wi, hi, (x as int, y + 1));
                }
                r.push(m);
            }
        }
        proof {
            assert forall|m: int| #[trigger] self.edge(n as int, m)
                implies exists|k: int| 0 <= k < r@.len() && r@[k] == m by {
                let c2 = self.cell_of_node@[m] as int;
                vstd::arithmetic::div_mod::lemma_fundamental_div_mod(c2, wi);
                let q = self.node_cell(m);
                assert(c2 == q.1 * wi + q.0) by (nonlinear_arith)
                    requires
                        c2 == wi * (c2 / wi) + (c2 % wi),
                        q == ((c2 % wi), (c2 / wi)),
                ;
                assert(q.1 < hi) by (nonlinear_arith)
                    requires
                        c2 < wi * hi,
                        q.1 == c2 / wi,
                        wi >= 1,
                ;
                lemma_grid_idx_bounds(wi, hi, q);
                assert(grid_idx(wi, q) == c2);
                assert(self.node_of_cell@[c2] == m);
                assert(m != usize::MAX);
                if q == (p.0 - 1, p.1) {
                    assert(c2 == cell - 1);
                    assert(0 <= kl < r@.len() && r@[kl] == m);
                } else if q == (p.0 + 1, p.1) {
                    assert(c2 == cell + 1);
                    assert(0 <= kr < r@.len() && r@[kr] == m);
                } else if q == (p.0, p.1 - 1) {
                    assert(c2 == cell - self.width);
                    assert(0 <= ku < r@.len() && r@[ku] == m);
                } else {
                    assert(q == (p.0, p.1 + 1));
                    assert(c2 == cell + self.width);
                    assert(0 <= kd < r@.len() && r@[kd] == m);
                }
            }
        }
        r
    }

    /// The coordinates of node `n`'s cell.
    pub fn cell_of(&self, n: usize) -> (r: (usize, usize))
        requires
            self.wf_mapping(),
            n < self.spec_node_count(),
        ensures
            (r.0 as int, r.1 as int) == self.node_cell(n as int),
            in_grid(self.width as int, self.height as int, (r.0 as int, r.1 as int)),
    {
        let c = self.cell_of_node[n];
        let x = c % self.width;
        let y = c / self.width;
        proof {
            assert(y < self.height) by (nonlinear_arith)
                requires
                    c < self.width * self.height,
                    y == c as int / self.width as int,
                    self.width >= 1,
            ;
        }
        (x, y)
    }
}

} // verus!
