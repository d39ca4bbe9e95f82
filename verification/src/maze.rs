//! Maze generation.
//!
//! A maze is a `width` x `height` grid of `Wall`/`Floor` tiles stored
//! row-major.  It is carved by a randomized depth-first backtracker on the
//! odd-coordinate lattice: every carving step turns exactly two `Wall` tiles
//! (a lattice cell and the wall between it and an already carved cell) into
//! `Floor`, so the carved region is a spanning tree of the visited lattice
//! cells and every carved tile stays reachable from the entrance.

use crate::graph::PathGraph;
use crate::rng::spec_rng_next;
use crate::rng::Rng;
use vstd::prelude::*;
use vstd::set_lib::lemma_int_range;
use vstd::set_lib::lemma_len_subset;
use vstd::set_lib::set_int_range;
use vstd::set::axiom_set_insert_len;
use vstd::set::axiom_set_remove_len;

verus! {

/// One grid cell: either solid wall or walkable floor.
#[derive(Clone, Copy, PartialEq, Eq, Structural, Debug)]
pub enum Tile {
    Wall,
    Floor,
}

/// Row-major index of the cell `p` in a grid `w` tiles wide.
pub open spec fn grid_idx(w: int, p: (int, int)) -> int {
    p.1 * w + p.0
}

/// Whether `p` lies inside a `w` x `h` grid.
pub open spec fn in_grid(w: int, h: int, p: (int, int)) -> bool {
    0 <= p.0 < w && 0 <= p.1 < h
}

/// Whether the cell `p` is a floor tile of the grid `t`.
pub open spec fn tile_is_floor(t: Seq<Tile>, w: int, h: int, p: (int, int)) -> bool {
    in_grid(w, h, p) && t[grid_idx(w, p)] is Floor
}

/// Whether two cells are 4-directionally adjacent on the grid.
pub open spec fn cells_adjacent(a: (int, int), b: (int, int)) -> bool {
    ||| (a.0 == b.0 && (a.1 == b.1 + 1 || b.1 == a.1 + 1))
    ||| (a.1 == b.1 && (a.0 == b.0 + 1 || b.0 == a.0 + 1))
}

/// A walk over floor tiles: non-empty, every cell a floor tile, and
/// consecutive cells 4-adjacent.
pub open spec fn floor_path_ok(t: Seq<Tile>, w: int, h: int, p: Seq<(int, int)>) -> bool {
    &&& p.len() >= 1
    &&& forall|i: int| 0 <= i < p.len() ==> tile_is_floor(t, w, h, #[trigger] p[i])
    &&& forall|i: int| 0 <= i < p.len() - 1 ==> cells_adjacent(#[trigger] p[i], p[i + 1])
}

/// Whether `b` can be reached from `a` by a walk over floor tiles.
///
/// Kept opaque so that quantified facts about reachability do not unfold
/// into path existentials; the lemmas below are the interface.
#[verifier::opaque]
pub open spec fn reachable(t: Seq<Tile>, w: int, h: int, a: (int, int), b: (int, int)) -> bool {
    exists|p: Seq<(int, int)>| floor_path_ok(t, w, h, p) && p[0] == a && p.last() == b
}

/// Two in-grid cells with the same row-major index are the same cell.
pub proof fn lemma_grid_idx_injective(w: int, h: int, a: (int, int), b: (int, int))
    requires
        w >= 1,
        in_grid(w, h, a),
        in_grid(w, h, b),
        grid_idx(w, a) == grid_idx(w, b),
    ensures
        a == b,
{
    assert(a.1 == b.1 && a.0 == b.0) by (nonlinear_arith)
        requires
            w >= 1,
            0 <= a.0 < w,
            0 <= b.0 < w,
            a.1 * w + a.0 == b.1 * w + b.0,
    ;
}

/// Distinct in-grid cells have distinct row-major indices.
pub proof fn lemma_distinct_cells(w: int, h: int, a: (int, int), b: (int, int))
    requires
        w >= 1,
        in_grid(w, h, a),
        in_grid(w, h, b),
        a != b,
    ensures
        grid_idx(w, a) != grid_idx(w, b),
{
    if grid_idx(w, a) == grid_idx(w, b) {
        lemma_grid_idx_injective(w, h, a, b);
    }
}

/// The row-major index of an in-grid cell lies inside the tile sequence.
pub proof fn lemma_grid_idx_bounds(w: int, h: int, p: (int, int))
    requires
        w >= 1,
        h >= 1,
        in_grid(w, h, p),
    ensures
        0 <= grid_idx(w, p) < w * h,
{
    assert(0 <= p.1 * w + p.0 < w * h) by (nonlinear_arith)
        requires
            0 <= p.0 < w,
            0 <= p.1 < h,
    ;
}

/// A floor cell reaches itself (the one-cell walk).
pub proof fn lemma_reach_self(t: Seq<Tile>, w: int, h: int, a: (int, int))
    requires
        tile_is_floor(t, w, h, a),
    ensures
        reachable(t, w, h, a, a),
{
    reveal(reachable);
    let p: Seq<(int, int)> = seq![a];
    assert(floor_path_ok(t, w, h, p));
    assert(p[0] == a && p.last() == a);
}

/// Reachability extends across one adjacent floor cell.
pub proof fn lemma_reach_step(t: Seq<Tile>, w: int, h: int, a: (int, int), b: (int, int), c: (int, int))
    requires
        reachable(t, w, h, a, b),
        cells_adjacent(b, c),
        tile_is_floor(t, w, h, c),
    ensures
        reachable(t, w, h, a, c),
{
    reveal(reachable);
    let p = choose|p: Seq<(int, int)>| floor_path_ok(t, w, h, p) && p[0] == a && p.last() == b;
    let q = p.push(c);
    assert(q.last() == c);
    assert forall|i: int| 0 <= i < q.len() implies tile_is_floor(t, w, h, #[trigger] q[i]) by {
        if i < p.len() {
            assert(q[i] == p[i]);
        }
    }
    assert forall|i: int| 0 <= i < q.len() - 1 implies cells_adjacent(#[trigger] q[i], q[i + 1]) by {
        if i < p.len() - 1 {
            assert(q[i] == p[i] && q[i + 1] == p[i + 1]);
        } else {
            assert(q[i] == p.last() && q[i + 1] == c);
        }
    }
    assert(floor_path_ok(t, w, h, q) && q[0] == a && q.last() == c);
}

/// Turning walls into floors never breaks reachability: any walk over the
/// old floor set is still a walk over the new one.
pub proof fn lemma_reach_mono(t1: Seq<Tile>, t2: Seq<Tile>, w: int, h: int, a: (int, int), b: (int, int))
    requires
        forall|p: (int, int)| tile_is_floor(t1, w, h, p) ==> tile_is_floor(t2, w, h, p),
        reachable(t1, w, h, a, b),
    ensures
        reachable(t2, w, h, a, b),
{
    reveal(reachable);
    let p = choose|p: Seq<(int, int)>| floor_path_ok(t1, w, h, p) && p[0] == a && p.last() == b;
    assert forall|i: int| 0 <= i < p.len() implies tile_is_floor(t2, w, h, #[trigger] p[i]) by {
        assert(tile_is_floor(t1, w, h, p[i]));
    }
    assert(floor_path_ok(t2, w, h, p) && p[0] == a && p.last() == b);
}

/// Whether the cell at row-major index `i` has both coordinates odd, i.e.
/// lies on the carving lattice.
pub open spec fn idx_both_odd(w: int, i: int) -> bool {
    (i % w) % 2 == 1 && (i / w) % 2 == 1
}

/// The indices of all floor tiles.
pub open spec fn floor_set(t: Seq<Tile>) -> Set<int> {
    Set::new(|i: int| 0 <= i < t.len() && t[i] is Floor)
}

/// How many tiles are floor.
pub open spec fn floor_count(t: Seq<Tile>) -> int {
    floor_set(t).len() as int
}

/// The indices of floor tiles on the carving lattice (both coordinates odd).
pub open spec fn lattice_floor_set(t: Seq<Tile>, w: int) -> Set<int> {
    Set::new(|i: int| 0 <= i < t.len() && idx_both_odd(w, i) && t[i] is Floor)
}

/// How many lattice cells have been carved.
pub open spec fn lattice_floor_count(t: Seq<Tile>, w: int) -> int {
    lattice_floor_set(t, w).len() as int
}

/// The indices of lattice cells still walled in (used as a carving measure).
pub open spec fn lattice_wall_set(t: Seq<Tile>, w: int) -> Set<int> {
    Set::new(|i: int| 0 <= i < t.len() && idx_both_odd(w, i) && t[i] is Wall)
}

/// How many lattice cells are still wall.
pub open spec fn lattice_wall_count(t: Seq<Tile>, w: int) -> int {
    lattice_wall_set(t, w).len() as int
}

/// The tile-counting sets are finite and bounded by the grid size.
pub proof fn lemma_tile_sets_finite(t: Seq<Tile>, w: int)
    ensures
        floor_set(t).finite(),
        0 <= floor_count(t) <= t.len(),
        lattice_floor_set(t, w).finite(),
        0 <= lattice_floor_count(t, w) <= t.len(),
        lattice_wall_set(t, w).finite(),
        0 <= lattice_wall_count(t, w) <= t.len(),
{
    let r = set_int_range(0, t.len() as int);
    lemma_int_range(0, t.len() as int);
    lemma_len_subset(floor_set(t), r);
    lemma_len_subset(lattice_floor_set(t, w), r);
    lemma_len_subset(lattice_wall_set(t, w), r);
}

/// Flipping one wall tile to floor: the floor count rises by one, and the
/// lattice counts change exactly when the flipped index is a lattice cell.
pub proof fn lemma_carve_counts(t: Seq<Tile>, w: int, i: int)
    requires
        0 <= i < t.len(),
        t[i] is Wall,
    ensures
        floor_count(t.update(i, Tile::Floor)) == floor_count(t) + 1,
        idx_both_odd(w, i) ==> lattice_floor_count(t.update(i, Tile::Floor), w)
            == lattice_floor_count(t, w) + 1,
        idx_both_odd(w, i) ==> lattice_wall_count(t.update(i, Tile::Floor), w)
            == lattice_wall_count(t, w) - 1,
        !idx_both_odd(w, i) ==> lattice_floor_count(t.update(i, Tile::Floor), w)
            == lattice_floor_count(t, w),
        !idx_both_odd(w, i) ==> lattice_wall_count(t.update(i, Tile::Floor), w)
            == lattice_wall_count(t, w),
{
    let t2 = t.update(i, Tile::Floor);
    lemma_tile_sets_finite(t, w);
    lemma_tile_sets_finite(t2, w);
    assert(floor_set(t2) =~= floor_set(t).insert(i));
    axiom_set_insert_len(floor_set(t), i);
    if idx_both_odd(w, i) {
        assert(lattice_floor_set(t2, w) =~= lattice_floor_set(t, w).insert(i));
        axiom_set_insert_len(lattice_floor_set(t, w), i);
        assert(lattice_wall_set(t2, w) =~= lattice_wall_set(t, w).remove(i));
        axiom_set_remove_len(lattice_wall_set(t, w), i);
    } else {
        assert(lattice_floor_set(t2, w) =~= lattice_floor_set(t, w));
        assert(lattice_wall_set(t2, w) =~= lattice_wall_set(t, w));
    }
}

/// Recover a cell's coordinates from its row-major index.
pub proof fn lemma_grid_idx_divmod(w: int, h: int, p: (int, int))
    requires
        w >= 1,
        in_grid(w, h, p),
    ensures
        grid_idx(w, p) % w == p.0,
        grid_idx(w, p) / w == p.1,
{
    vstd::arithmetic::div_mod::lemma_fundamental_div_mod_converse_mod(grid_idx(w, p), w, p.1, p.0);
    vstd::arithmetic::div_mod::lemma_fundamental_div_mod_converse_div(grid_idx(w, p), w, p.1, p.0);
}

/// A candidate for one carving step from the lattice cell `cur`: a lattice
/// cell two tiles away in one axis direction, inside the grid and not yet
/// carved.
pub open spec fn carve_candidate(t: Seq<Tile>, w: int, h: int, cur: (int, int), c: (int, int)) -> bool {
    &&& c.0 % 2 == 1 && c.1 % 2 == 1
    &&& 0 < c.0 < w && 0 < c.1 < h
    &&& !(t[grid_idx(w, c)] is Floor)
    &&& (c.1 == cur.1 && (c.0 == cur.0 - 2 || c.0 == cur.0 + 2))
        || (c.0 == cur.0 && (c.1 == cur.1 - 2 || c.1 == cur.1 + 2))
}

/// Shape condition for one floor cell of a partly carved grid: its
/// coordinates are not both even, and if exactly one coordinate is even the
/// cell is a carved connecting wall, so both lattice cells it joins are
/// floor too.
pub open spec fn shape_at(t: Seq<Tile>, w: int, h: int, c: (int, int)) -> bool {
    &&& !(c.0 % 2 == 0 && c.1 % 2 == 0)
    &&& (c.0 % 2 == 0 && c.1 % 2 == 1) ==> tile_is_floor(t, w, h, (c.0 - 1, c.1))
        && tile_is_floor(t, w, h, (c.0 + 1, c.1))
    &&& (c.0 % 2 == 1 && c.1 % 2 == 0) ==> tile_is_floor(t, w, h, (c.0, c.1 - 1))
        && tile_is_floor(t, w, h, (c.0, c.1 + 1))
}

/// Shape invariant of a partly carved grid: every floor tile satisfies the
/// per-cell shape condition.
pub open spec fn carve_shape_ok(t: Seq<Tile>, w: int, h: int) -> bool {
    forall|c: (int, int)| tile_is_floor(t, w, h, c) ==> #[trigger] shape_at(t, w, h, c)
}

/// One carving step: flooring the wall between `cur` and a carve candidate
/// `nb`, and then `nb` itself, keeps every generation invariant — floors
/// stay floors, every floor tile stays reachable from the entrance, the
/// shape invariant is preserved, and the tile counts move by exactly one
/// carved lattice cell plus one carved connecting wall.
#[verifier::rlimit(100)]
proof fn lemma_carve_preserves(
    t1: Seq<Tile>,
    t2: Seq<Tile>,
    w: int,
    h: int,
    e: (int, int),
    cur: (int, int),
    nb: (int, int),
    mid: (int, int),
)
    requires
        3 <= w,
        3 <= h,
        t1.len() == w * h,
        in_grid(w, h, cur),
        tile_is_floor(t1, w, h, cur),
        tile_is_floor(t1, w, h, e),
        forall|c: (int, int)| #[trigger] tile_is_floor(t1, w, h, c) ==> reachable(t1, w, h, e, c),
        carve_shape_ok(t1, w, h),
        carve_candidate(t1, w, h, cur, nb),
        mid == ((cur.0 + nb.0) / 2, (cur.1 + nb.1) / 2),
        t2 == t1.update(grid_idx(w, mid), Tile::Floor).update(grid_idx(w, nb), Tile::Floor),
    ensures
        forall|c: (int, int)| tile_is_floor(t1, w, h, c) ==> #[trigger] tile_is_floor(t2, w, h, c),
        tile_is_floor(t2, w, h, e),
        tile_is_floor(t2, w, h, nb),
        forall|c: (int, int)| #[trigger] tile_is_floor(t2, w, h, c) ==> reachable(t2, w, h, e, c),
        carve_shape_ok(t2, w, h),
        floor_count(t2) == floor_count(t1) + 2,
        lattice_floor_count(t2, w) == lattice_floor_count(t1, w) + 1,
        lattice_wall_count(t2, w) == lattice_wall_count(t1, w) - 1,
{
    lemma_grid_idx_bounds(w, h, cur);
    lemma_grid_idx_bounds(w, h, nb);
    assert(in_grid(w, h, mid) && cells_adjacent(cur, mid) && cells_adjacent(mid, nb)
        && (mid.0 % 2 == 0) != (mid.1 % 2 == 0));
    lemma_grid_idx_bounds(w, h, mid);
    lemma_grid_idx_divmod(w, h, mid);
    lemma_grid_idx_divmod(w, h, nb);
    assert(grid_idx(w, mid) != grid_idx(w, nb)) by {
        if grid_idx(w, mid) == grid_idx(w, nb) {
            lemma_grid_idx_injective(w, h, mid, nb);
        }
    }
    // the connecting wall cannot already be floor: the shape invariant would
    // make the candidate cell floor too
    if tile_is_floor(t1, w, h, mid) {
        assert(shape_at(t1, w, h, mid));
        assert(tile_is_floor(t1, w, h, nb));
    }
    let t_mid = t1.update(grid_idx(w, mid), Tile::Floor);
    lemma_carve_counts(t1, w, grid_idx(w, mid));
    assert(!tile_is_floor(t_mid, w, h, nb));
    lemma_carve_counts(t_mid, w, grid_idx(w, nb));
    // floors only grow
    assert forall|c: (int, int)| tile_is_floor(t1, w, h, c)
        implies #[trigger] tile_is_floor(t2, w, h, c) by {
        lemma_grid_idx_bounds(w, h, c);
    }
    // the two carved cells are reachable through `cur`
    lemma_reach_mono(t1, t2, w, h, e, cur);
    assert(tile_is_floor(t2, w, h, mid));
    lemma_reach_step(t2, w, h, e, cur, mid);
    assert(tile_is_floor(t2, w, h, nb));
    lemma_reach_step(t2, w, h, e, mid, nb);
    // every other floor cell was already reachable
    assert forall|c: (int, int)| #[trigger] tile_is_floor(t2, w, h, c)
        implies reachable(t2, w, h, e, c) by {
        if c != mid && c != nb {
            lemma_grid_idx_bounds(w, h, c);
            lemma_distinct_cells(w, h, c, mid);
            lemma_distinct_cells(w, h, c, nb);
            assert(tile_is_floor(t1, w, h, c));
            lemma_reach_mono(t1, t2, w, h, e, c);
        }
    }
    // shape invariant: `mid` is a carved connecting wall whose two lattice
    // ends (`cur` and `nb`) are floor; `nb` is a lattice cell
    assert forall|c: (int, int)| tile_is_floor(t2, w, h, c)
        implies #[trigger] shape_at(t2, w, h, c) by {
        if c == mid || c == nb {
            assert(tile_is_floor(t2, w, h, cur));
            assert(shape_at(t2, w, h, c));
        } else {
            lemma_grid_idx_bounds(w, h, c);
            lemma_distinct_cells(w, h, c, mid);
            lemma_distinct_cells(w, h, c, nb);
            assert(tile_is_floor(t1, w, h, c));
            assert(shape_at(t1, w, h, c));
            assert(shape_at(t2, w, h, c));
        }
    }
}

/// A stack of exec-level cells as spec-level coordinates.
pub open spec fn stack_cells(s: Seq<(usize, usize)>) -> Seq<(int, int)> {
    Seq::new(s.len(), |i: int| (s[i].0 as int, s[i].1 as int))
}

/// The carve candidate two tiles to the left of `cur`, if it is inside the
/// grid and still walled.
pub open spec fn cand_left(t: Seq<Tile>, w: int, h: int, cur: (int, int)) -> Seq<(int, int)> {
    if cur.0 > 2 && t[grid_idx(w, (cur.0 - 2, cur.1))] is Wall {
        seq![(cur.0 - 2, cur.1)]
    } else {
        Seq::empty()
    }
}

/// The carve candidate two tiles to the right of `cur`, likewise.
pub open spec fn cand_right(t: Seq<Tile>, w: int, h: int, cur: (int, int)) -> Seq<(int, int)> {
    if cur.0 + 2 < w && t[grid_idx(w, (cur.0 + 2, cur.1))] is Wall {
        seq![(cur.0 + 2, cur.1)]
    } else {
        Seq::empty()
    }
}

/// The carve candidate two tiles above `cur`, likewise.
pub open spec fn cand_up(t: Seq<Tile>, w: int, h: int, cur: (int, int)) -> Seq<(int, int)> {
    if cur.1 > 2 && t[grid_idx(w, (cur.0, cur.1 - 2))] is Wall {
        seq![(cur.0, cur.1 - 2)]
    } else {
        Seq::empty()
    }
}

/// The carve candidate two tiles below `cur`, likewise.
pub open spec fn cand_down(t: Seq<Tile>, w: int, h: int, cur: (int, int)) -> Seq<(int, int)> {
    if cur.1 + 2 < h && t[grid_idx(w, (cur.0, cur.1 + 2))] is Wall {
        seq![(cur.0, cur.1 + 2)]
    } else {
        Seq::empty()
    }
}

/// The carve candidates of the cell `cur`, in the fixed probe order left,
/// right, up, down: lattice cells two tiles away, inside the grid and still
/// walled.
pub open spec fn spec_candidates(t: Seq<Tile>, w: int, h: int, cur: (int, int)) -> Seq<(int, int)> {
    cand_left(t, w, h, cur) + cand_right(t, w, h, cur) + cand_up(t, w, h, cur)
        + cand_down(t, w, h, cur)
}

/// The functional model of the whole backtracking run: from a grid, a
/// stack and a generator state, the tile grid the carver ends with.  The
/// measure guard in the carving branch makes the definition total; from any
/// state the carver actually reaches, the guard holds (every carving step
/// floors one walled lattice cell).
pub open spec fn carve_run(t: Seq<Tile>, stack: Seq<(int, int)>, rng: u64, w: int, h: int) -> Seq<Tile>
    decreases 2 * lattice_wall_count(t, w) + stack.len(),
{
    if stack.len() == 0 {
        t
    } else {
        let cur = stack.last();
        let cands = spec_candidates(t, w, h, cur);
        if cands.len() == 0 {
            carve_run(t, stack.drop_last(), rng, w, h)
        } else {
            let nb = cands[(spec_rng_next(rng) as int) % (cands.len() as int)];
            let mid = ((cur.0 + nb.0) / 2, (cur.1 + nb.1) / 2);
            let t2 = t.update(grid_idx(w, mid), Tile::Floor).update(grid_idx(w, nb), Tile::Floor);
            if 2 * lattice_wall_count(t2, w) + stack.len() + 1 < 2 * lattice_wall_count(t, w)
                + stack.len() {
                carve_run(t2, stack.push(nb), spec_rng_next(rng), w, h)
            } else {
                t
            }
        }
    }
}

/// The grid the carver starts from: all wall, with the entrance floored.
pub open spec fn initial_grid(w: int, h: int) -> Seq<Tile> {
    Seq::new((w * h) as nat, |i: int| Tile::Wall).update(w + 1, Tile::Floor)
}

/// The carved tile grid, as a pure function of the sizes and the seed.
pub open spec fn carved_tiles(w: int, h: int, seed: u64) -> Seq<Tile> {
    carve_run(initial_grid(w, h), seq![(1int, 1int)], seed, w, h)
}

/// The finished maze's tile grid, as a pure function of the sizes and the
/// seed: the carved grid with the nexus cell forced to floor.
pub open spec fn maze_tiles(w: int, h: int, seed: u64) -> Seq<Tile> {
    let t = carved_tiles(w, h, seed);
    let ni = grid_idx(w, (w / 2, h / 2));
    if t[ni] is Floor {
        t
    } else {
        t.update(ni, Tile::Floor)
    }
}

/// Backtracking from a cell with no carve candidates leaves the model's
/// result unchanged (one unfolding of `carve_run`).
proof fn lemma_model_pop(t: Seq<Tile>, stack: Seq<(int, int)>, rng: u64, w: int, h: int)
    requires
        stack.len() > 0,
        spec_candidates(t, w, h, stack.last()).len() == 0,
    ensures
        carve_run(t, stack.drop_last(), rng, w, h) == carve_run(t, stack, rng, w, h),
{
}

/// Carving the randomly picked candidate advances the model by one
/// unfolding of `carve_run`.
proof fn lemma_model_carve(
    t: Seq<Tile>,
    stack: Seq<(int, int)>,
    rng: u64,
    w: int,
    h: int,
    nb: (int, int),
    mid: (int, int),
    t2: Seq<Tile>,
)
    requires
        stack.len() > 0,
        spec_candidates(t, w, h, stack.last()).len() > 0,
        nb == spec_candidates(t, w, h, stack.last())[(spec_rng_next(rng) as int)
            % (spec_candidates(t, w, h, stack.last()).len() as int)],
        mid == ((stack.last().0 + nb.0) / 2, (stack.last().1 + nb.1) / 2),
        t2 == t.update(grid_idx(w, mid), Tile::Floor).update(grid_idx(w, nb), Tile::Floor),
        2 * lattice_wall_count(t2, w) + stack.len() + 1 < 2 * lattice_wall_count(t, w)
            + stack.len(),
    ensures
        carve_run(t2, stack.push(nb), spec_rng_next(rng), w, h) == carve_run(t, stack, rng, w, h),
{
}

/// Everything that holds of a partly carved grid and its backtracking
/// stack: the entrance is floor, every floor tile is reachable from the
/// entrance, the stack holds carved lattice cells, the tile counts match the
/// number of carving steps taken, and the shape invariant holds.
spec fn carve_inv(t: Seq<Tile>, stack: Seq<(usize, usize)>, steps: int, w: int, h: int) -> bool {
    &&& t.len() == w * h
    &&& tile_is_floor(t, w, h, (1int, 1int))
    &&& forall|c: (int, int)| #[trigger] tile_is_floor(t, w, h, c)
        ==> reachable(t, w, h, (1int, 1int), c)
    &&& forall|k: int| 0 <= k < stack.len() ==> {
        let c = #[trigger] stack[k];
        c.0 % 2 == 1 && c.1 % 2 == 1 && 0 < c.0 < w && 0 < c.1 < h
            && tile_is_floor(t, w, h, (c.0 as int, c.1 as int))
    }
    &&& floor_count(t) == 2 * steps + 1
    &&& lattice_floor_count(t, w) == steps + 1
    &&& steps + 1 <= w * h
    &&& carve_shape_ok(t, w, h)
}

/// Collect the carve candidates of the lattice cell `(cx, cy)`, probing in
/// the fixed order left, right, up, down.
fn gather_candidates(tiles: &Vec<Tile>, cx: usize, cy: usize, width: usize, height: usize) -> (r: Vec<(usize, usize)>)
    requires
        3 <= width <= 32768,
        3 <= height <= 32768,
        width * height <= 0x4000_0000,
        tiles@.len() == width * height,
        cx % 2 == 1,
        cy % 2 == 1,
        0 < cx < width,
        0 < cy < height,
    ensures
        stack_cells(r@) == spec_candidates(tiles@, width as int, height as int, (cx as int, cy as int)),
        forall|j: int| 0 <= j < r@.len()
            ==> carve_candidate(tiles@, width as int, height as int, (cx as int, cy as int),
                ((#[trigger] r@[j]).0 as int, r@[j].1 as int)),
{
    let ghost wi: int = width as int;
    let ghost hi: int = height as int;
    let ghost cur: (int, int) = (cx as int, cy as int);
    let mut cands: Vec<(usize, usize)> = Vec::new();
    if cx >= 3 {
        proof { lemma_grid_idx_bounds(wi, hi, (cx - 2, cy as int)); }
        if matches!(tiles[cy * width + (cx - 2)], Tile::Wall) {
            cands.push((cx - 2, cy));
        }
    }
    proof {
        assert(stack_cells(cands@) =~= cand_left(tiles@, wi, hi, cur));
    }
    if cx + 2 < width {
        proof { lemma_grid_idx_bounds(wi, hi, (cx + 2, cy as int)); }
        if matches!(tiles[cy * width + (cx + 2)], Tile::Wall) {
            cands.push((cx + 2, cy));
        }
    }
    proof {
        assert(stack_cells(cands@) =~= cand_left(tiles@, wi, hi, cur) + cand_right(tiles@, wi, hi, cur));
    }
    if cy >= 3 {
        proof { lemma_grid_idx_bounds(wi, hi, (cx as int, cy - 2)); }
        if matches!(tiles[(cy - 2) * width + cx], Tile::Wall) {
            cands.push((cx, cy - 2));
        }
    }
    proof {
        assert(stack_cells(cands@) =~= cand_left(tiles@, wi, hi, cur) + cand_right(tiles@, wi, hi, cur)
            + cand_up(tiles@, wi, hi, cur));
    }
    if cy + 2 < height {
        proof { lemma_grid_idx_bounds(wi, hi, (cx as int, cy + 2)); }
        if matches!(tiles[(cy + 2) * width + cx], Tile::Wall) {
            cands.push((cx, cy + 2));
        }
    }
    proof {
        assert(stack_cells(cands@) =~= spec_candidates(tiles@, wi, hi, cur));
        assert forall|j: int| 0 <= j < cands@.len()
            implies carve_candidate(tiles@, wi, hi, cur,
                ((#[trigger] cands@[j]).0 as int, cands@[j].1 as int)) by {
            assert(stack_cells(cands@)[j] == (cands@[j].0 as int, cands@[j].1 as int));
        }
    }
    cands
}

/// One iteration of the backtracker: look at the top of the stack; carve a
/// random candidate neighbor if one exists, otherwise backtrack.  The
/// carving measure (walled lattice cells, then stack depth) shrinks.
#[verifier::rlimit(100)]
fn carve_iteration(
    tiles: &mut Vec<Tile>,
    stack: &mut Vec<(usize, usize)>,
    steps: &mut usize,
    rng: &mut Rng,
    width: usize,
    height: usize,
)
    requires
        3 <= width <= 32768,
        3 <= height <= 32768,
        width * height <= 0x4000_0000,
        carve_inv(old(tiles)@, old(stack)@, *old(steps) as int, width as int, height as int),
        old(stack)@.len() > 0,
    ensures
        carve_inv(final(tiles)@, final(stack)@, *final(steps) as int, width as int, height as int),
        2 * lattice_wall_count(final(tiles)@, width as int) + final(stack)@.len()
            < 2 * lattice_wall_count(old(tiles)@, width as int) + old(stack)@.len(),
        carve_run(final(tiles)@, stack_cells(final(stack)@), final(rng).state, width as int,
            height as int)
            == carve_run(old(tiles)@, stack_cells(old(stack)@), old(rng).state, width as int,
                height as int),
{
    let ghost tiles0 = tiles@;
    let ghost stack0 = stack@;
    let ghost rng0 = rng.state;
    let ghost wi: int = width as int;
    let ghost hi: int = height as int;
    proof {
        lemma_tile_sets_finite(old(tiles)@, wi);
    }
    let top = stack.len() - 1;
    let (cx, cy) = stack[top];
    let ghost cur: (int, int) = (cx as int, cy as int);
    assert(in_grid(wi, hi, cur) && tile_is_floor(tiles@, wi, hi, cur));
    let cands = gather_candidates(tiles, cx, cy, width, height);
    proof {
        assert(stack_cells(stack0).last() == cur);
    }
    if cands.len() == 0 {
        stack.pop();
        proof {
            assert(stack_cells(stack@) =~= stack_cells(stack0).drop_last());
            lemma_model_pop(tiles0, stack_cells(stack0), rng0, wi, hi);
        }
    } else {
        let ghost tiles_pre = tiles@;
        let k = rng.pick(cands.len() as u64) as usize;
        let (nx, ny) = cands[k];
        let ghost nb: (int, int) = (nx as int, ny as int);
        assert(carve_candidate(tiles@, wi, hi, cur, nb));
        let wx = (cx + nx) / 2;
        let wy = (cy + ny) / 2;
        let ghost mid: (int, int) = (wx as int, wy as int);
        assert(mid == ((cur.0 + nb.0) / 2, (cur.1 + nb.1) / 2));
        proof {
            lemma_grid_idx_bounds(wi, hi, mid);
            lemma_grid_idx_bounds(wi, hi, nb);
        }
        let mid_idx = wy * width + wx;
        tiles.set(mid_idx, Tile::Floor);
        let nb_idx = ny * width + nx;
        tiles.set(nb_idx, Tile::Floor);
        proof {
            lemma_carve_preserves(tiles_pre, tiles@, wi, hi, (1int, 1int), cur, nb, mid);
            lemma_tile_sets_finite(tiles@, wi);
        }
        *steps = *steps + 1;
        stack.push((nx, ny));
        proof {
            // the exec step mirrors one unfolding of the functional model
            let scands = spec_candidates(tiles0, wi, hi, cur);
            assert(nb == scands[(spec_rng_next(rng0) as int) % (scands.len() as int)]) by {
                assert(stack_cells(cands@)[k as int] == nb);
            }
            assert(tiles@ == tiles0.update(grid_idx(wi, mid), Tile::Floor).update(
                grid_idx(wi, nb), Tile::Floor));
            assert(stack_cells(stack@) =~= stack_cells(stack0).push(nb));
            assert(2 * lattice_wall_count(tiles@, wi) + stack0.len() + 1
                < 2 * lattice_wall_count(tiles0, wi) + stack0.len());
            lemma_model_carve(tiles0, stack_cells(stack0), rng0, wi, hi, nb, mid, tiles@);
        }
    }
}

/// Carve a maze of the given size with a randomized depth-first backtracker
/// on the odd-coordinate lattice, starting at the entrance cell (1, 1).
///
/// Returns the tile grid together with the number of carving steps taken.
/// Each step floors exactly one new lattice cell plus the wall between it
/// and an already carved cell, so the floor count is `2 * steps + 1`, the
/// number of carved lattice cells is `steps + 1` (the carved region is a
/// spanning tree over the visited lattice cells), and every floor tile is
/// reachable from the entrance.
pub fn carve_tiles(width: usize, height: usize, rng: &mut Rng) -> (r: (Vec<Tile>, usize))
    requires
        3 <= width <= 32768,
        3 <= height <= 32768,
    ensures
        r.0@.len() == width * height,
        tile_is_floor(r.0@, width as int, height as int, (1int, 1int)),
        forall|c: (int, int)| #[trigger] tile_is_floor(r.0@, width as int, height as int, c)
            ==> reachable(r.0@, width as int, height as int, (1int, 1int), c),
        floor_count(r.0@) == 2 * r.1 + 1,
        lattice_floor_count(r.0@, width as int) == r.1 + 1,
        carve_shape_ok(r.0@, width as int, height as int),
        r.0@ == carved_tiles(width as int, height as int, old(rng).state),
{
    let ghost wi: int = width as int;
    let ghost hi: int = height as int;
    proof {
        assert(width * height <= 0x4000_0000) by (nonlinear_arith)
            requires
                width <= 32768,
                height <= 32768,
        ;
    }
    let n = width * height;
    let mut tiles: Vec<Tile> = Vec::new();
    let mut i: usize = 0;
    while i < n
        invariant
            i <= n,
            tiles@.len() == i,
            forall|j: int| 0 <= j < i ==> tiles@[j] is Wall,
        decreases n - i,
    {
        tiles.push(Tile::Wall);
        i = i + 1;
    }
    proof {
        assert(floor_set(tiles@) =~= Set::empty());
        assert(lattice_floor_set(tiles@, wi) =~= Set::empty());
    }
    let start_idx = width + 1;
    proof {
        lemma_grid_idx_bounds(wi, hi, (1int, 1int));
        assert(grid_idx(wi, (1int, 1int)) == start_idx);
        lemma_grid_idx_divmod(wi, hi, (1int, 1int));
        lemma_carve_counts(tiles@, wi, start_idx as int);
    }
    tiles.set(start_idx, Tile::Floor);
    proof {
        assert forall|c: (int, int)| #[trigger] tile_is_floor(tiles@, wi, hi, c)
            implies reachable(tiles@, wi, hi, (1int, 1int), c) by {
            lemma_grid_idx_bounds(wi, hi, c);
            assert(grid_idx(wi, c) == start_idx);
            lemma_grid_idx_injective(wi, hi, c, (1int, 1int));
            lemma_reach_self(tiles@, wi, hi, (1int, 1int));
        }
        assert forall|c: (int, int)| tile_is_floor(tiles@, wi, hi, c)
            implies #[trigger] shape_at(tiles@, wi, hi, c) by {
            lemma_grid_idx_bounds(wi, hi, c);
            assert(grid_idx(wi, c) == start_idx);
            lemma_grid_idx_injective(wi, hi, c, (1int, 1int));
            assert(c == (1int, 1int));
        }
        lemma_tile_sets_finite(tiles@, wi);
    }
    let mut stack: Vec<(usize, usize)> = Vec::new();
    stack.push((1, 1));
    let mut steps: usize = 0;
    assert(carve_inv(tiles@, stack@, steps as int, wi, hi));
    proof {
        assert(tiles@ =~= initial_grid(wi, hi));
        assert(stack_cells(stack@) =~= seq![(1int, 1int)]);
    }
    let ghost seed: u64 = rng.state;
    while stack.len() > 0
        invariant
            3 <= width <= 32768,
            3 <= height <= 32768,
            wi == width as int,
            hi == height as int,
            n == width * height,
            n <= 0x4000_0000,
            carve_inv(tiles@, stack@, steps as int, wi, hi),
            seed == old(rng).state,
            carve_run(tiles@, stack_cells(stack@), rng.state, wi, hi)
                == carved_tiles(wi, hi, seed),
        decreases 2 * lattice_wall_count(tiles@, wi) + stack@.len(),
    {
        carve_iteration(&mut tiles, &mut stack, &mut steps, rng, width, height);
    }
    proof {
        assert(stack_cells(stack@).len() == 0);
    }
    (tiles, steps)
}

/// A generated maze: the tile grid, the entrance and nexus cells, and the
/// floor-cell adjacency graph.  Immutable after generation.
pub struct Maze {
    pub width: usize,
    pub height: usize,
    pub tiles: Vec<Tile>,
    pub entrance: (usize, usize),
    pub nexus_pos: (usize, usize),
    pub graph: PathGraph,
}

impl Maze {
    /// The entrance cell as spec-level coordinates.
    pub open spec fn entrance_cell(self) -> (int, int) {
        (self.entrance.0 as int, self.entrance.1 as int)
    }

    /// The nexus cell as spec-level coordinates.
    pub open spec fn nexus_cell(self) -> (int, int) {
        (self.nexus_pos.0 as int, self.nexus_pos.1 as int)
    }

    /// Well-formedness of a generated maze: sizes in range, the entrance at
    /// (1, 1) and the nexus at the grid center, both floor; every floor cell
    /// other than the nexus reachable from the entrance (the nexus itself is
    /// forced to floor after carving, so it can in rare carvings be walled
    /// in); and the adjacency graph agreeing with the tiles.
    pub open spec fn wf(self) -> bool {
        &&& 3 <= self.width <= 32768
        &&& 3 <= self.height <= 32768
        &&& self.tiles@.len() == self.width * self.height
        &&& self.entrance == (1usize, 1usize)
        &&& self.nexus_pos.0 == self.width as int / 2
        &&& self.nexus_pos.1 == self.height as int / 2
        &&& tile_is_floor(self.tiles@, self.width as int, self.height as int, self.entrance_cell())
        &&& tile_is_floor(self.tiles@, self.width as int, self.height as int, self.nexus_cell())
        &&& forall|c: (int, int)| #[trigger] tile_is_floor(self.tiles@, self.width as int, self.height as int, c)
            && c != self.nexus_cell()
            ==> reachable(self.tiles@, self.width as int, self.height as int, self.entrance_cell(), c)
        &&& self.graph.width == self.width
        &&& self.graph.height == self.height
        &&& self.graph.wf(self.tiles@)
    }

    /// Generate a maze: carve it with the seeded backtracker, force the
    /// nexus cell (the grid center) to floor if carving left it walled, and
    /// build the adjacency graph over the resulting floor set.
    pub fn generate(width: usize, height: usize, seed: u64) -> (m: Maze)
        requires
            3 <= width <= 32768,
            3 <= height <= 32768,
        ensures
            m.wf(),
            m.width == width,
            m.height == height,
            m.entrance == (1usize, 1usize),
            m.nexus_pos == (width / 2, height / 2),
            m.tiles@ == maze_tiles(width as int, height as int, seed),
            carved_tiles(width as int, height as int, seed)[grid_idx(width as int,
                m.nexus_cell())] is Floor
                ==> reachable(m.tiles@, width as int, height as int, m.entrance_cell(),
                    m.nexus_cell()),
    {
        let ghost wi: int = width as int;
        let ghost hi: int = height as int;
        let mut rng = Rng::new(seed);
        let (mut tiles, _steps) = carve_tiles(width, height, &mut rng);
        let nx = width / 2;
        let ny = height / 2;
        let ghost nexus: (int, int) = (nx as int, ny as int);
        proof {
            assert(width * height <= 0x4000_0000) by (nonlinear_arith)
                requires
                    width <= 32768,
                    height <= 32768,
            ;
            lemma_grid_idx_bounds(wi, hi, nexus);
        }
        let nidx = ny * width + nx;
        let ghost tiles_pre = tiles@;
        if matches!(tiles[nidx], Tile::Wall) {
            tiles.set(nidx, Tile::Floor);
        }
        proof {
            assert forall|c: (int, int)| tile_is_floor(tiles_pre, wi, hi, c)
                implies #[trigger] tile_is_floor(tiles@, wi, hi, c) by {
                lemma_grid_idx_bounds(wi, hi, c);
            }
            assert forall|c: (int, int)| #[trigger] tile_is_floor(tiles@, wi, hi, c) && c != nexus
                implies reachable(tiles@, wi, hi, (1int, 1int), c) by {
                lemma_grid_idx_bounds(wi, hi, c);
                lemma_distinct_cells(wi, hi, c, nexus);
                assert(tile_is_floor(tiles_pre, wi, hi, c));
                lemma_reach_mono(tiles_pre, tiles@, wi, hi, (1int, 1int), c);
            }
        }
        proof {
            // when carving already floored the nexus, nothing was forced and
            // the whole floor set, nexus included, is connected
            if tiles_pre[grid_idx(wi, nexus)] is Floor {
                assert(tiles@ == tiles_pre);
                assert(tile_is_floor(tiles_pre, wi, hi, nexus));
            }
        }
        let graph = PathGraph::build(width, height, &tiles);
        Maze {
            width,
            height,
            tiles,
            entrance: (1, 1),
            nexus_pos: (nx, ny),
            graph,
        }
    }

    /// Determinism law: generation is a pure function of the sizes and the
    /// seed (see `generate`'s contract), so two mazes generated from the
    /// same sizes and seed carry identical tile grids.
    pub proof fn lemma_generation_deterministic(a: Maze, b: Maze, width: usize, height: usize, seed: u64)
        requires
            a.tiles@ == maze_tiles(width as int, height as int, seed),
            b.tiles@ == maze_tiles(width as int, height as int, seed),
        ensures
            a.tiles@ == b.tiles@,
    {
    }

    /// Connectivity law: in a well-formed maze every floor cell is
    /// reachable from the entrance — with the one exception of the nexus
    /// cell itself, which is forced to floor after carving and can, for
    /// rare carvings, be walled in on all four sides.
    pub proof fn lemma_connectivity(self, c: (int, int))
        requires
            self.wf(),
            tile_is_floor(self.tiles@, self.width as int, self.height as int, c),
            c != self.nexus_cell(),
        ensures
            reachable(self.tiles@, self.width as int, self.height as int, self.entrance_cell(), c),
    {
    }

    /// The tile at cell `(x, y)` (presentation-layer accessor).
    pub fn tile_at(&self, x: usize, y: usize) -> (t: Tile)
        requires
            self.wf(),
            x < self.width,
            y < self.height,
        ensures
            t == self.tiles@[grid_idx(self.width as int, (x as int, y as int))],
    {
        proof {
            assert(self.width * self.height <= 0x4000_0000) by (nonlinear_arith)
                requires
                    self.width <= 32768,
                    self.height <= 32768,
            ;
            lemma_grid_idx_bounds(self.width as int, self.height as int, (x as int, y as int));
        }
        self.tiles[y * self.width + x]
    }
}

} // verus!
