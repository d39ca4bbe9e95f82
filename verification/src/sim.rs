//! The per-tick simulation core.
//!
//! A `Simulation` owns the maze, the towers, the live enemies and the nexus
//! health, and advances them one tick at a time in a fixed system order:
//! spawning, targeting, combat, movement, enemy lifecycle, and the nexus
//! health monitor that triggers the terminal game-over transition.  All
//! timers are advanced by an externally supplied elapsed time, measured in
//! milliseconds; world space is measured in integer world units with
//! `TILE_SIZE` units per grid cell.

use crate::maze::floor_path_ok;
use crate::maze::grid_idx;
use crate::maze::in_grid;
use crate::maze::lemma_grid_idx_bounds;
use crate::maze::reachable;
use crate::maze::tile_is_floor;
use crate::maze::Maze;
use crate::maze::Tile;
use crate::path::find_path;
use crate::path::route_ok;
use vstd::prelude::*;

verus! {

/// World units per grid cell.
pub const TILE_SIZE: u64 = 20;

/// Health the nexus starts with.
pub const NEXUS_START_HEALTH: u64 = 100;

/// Health an arriving enemy removes from the nexus.
pub const ARRIVAL_DAMAGE: u64 = 10;

/// Default tower range, in world units.
pub const TOWER_RANGE: u64 = 150;

/// Default tower fire period, in milliseconds.
pub const TOWER_FIRE_PERIOD: u64 = 1000;

/// Default damage per tower shot.
pub const TOWER_DAMAGE: u64 = 5;

/// Default spawn period, in milliseconds.
pub const SPAWN_PERIOD: u64 = 2000;

/// Default enemy speed, in world units per second.
pub const ENEMY_SPEED: u64 = 50;

/// Default enemy starting health.
pub const ENEMY_HEALTH: u64 = 10;

/// Largest world coordinate a grid cell can map to.
pub const WORLD_MAX: u64 = 655360;

/// Longest elapsed time one tick may advance, in milliseconds.
pub const TICK_MAX: u64 = 1000000000;

/// The high-level state of the application: the menu, the running
/// simulation, and the terminal game-over state.
#[derive(Clone, Copy, PartialEq, Eq, Structural, Debug)]
pub enum GameState {
    MainMenu,
    InGame,
    GameOver,
}

/// A defensive structure: fixed position, a range, a fire-rate timer and an
/// optional current target, recorded as an enemy identifier that may stop
/// resolving when the enemy dies.
#[derive(Clone, Copy, Debug)]
pub struct Tower {
    pub x: i64,
    pub y: i64,
    pub range: u64,
    pub fire_period: u64,
    pub fire_elapsed: u64,
    pub damage: u64,
    pub target: Option<u64>,
}

/// A moving agent: position, speed, health, and the route of grid waypoints
/// it consumes front to back on its way to the nexus.
#[derive(Debug)]
pub struct Enemy {
    pub id: u64,
    pub x: i64,
    pub y: i64,
    pub speed: u64,
    pub health: u64,
    pub route: Vec<(usize, usize)>,
    pub route_idx: usize,
}

/// The world coordinate of a grid coordinate (cell spacing `TILE_SIZE`).
pub open spec fn world_of(c: int) -> int {
    c * TILE_SIZE
}

/// A tower is well formed: timers positive and bounded, range and damage
/// bounded, position within the world.
pub open spec fn tower_wf(t: Tower) -> bool {
    &&& 0 < t.fire_period <= TICK_MAX
    &&& t.fire_elapsed < t.fire_period
    &&& 0 < t.range <= 1000000
    &&& t.damage <= 1000000
    &&& 0 <= t.x <= WORLD_MAX
    &&& 0 <= t.y <= WORLD_MAX
}

/// An enemy is well formed: positive bounded speed, position within the
/// world, the route cursor within the route, and route cells inside the
/// largest supported grid.
pub open spec fn enemy_wf(e: Enemy) -> bool {
    &&& 0 < e.speed <= 1000000
    &&& 0 <= e.x <= WORLD_MAX
    &&& 0 <= e.y <= WORLD_MAX
    &&& e.route_idx <= e.route@.len()
    &&& forall|i: int| 0 <= i < e.route@.len()
        ==> (#[trigger] e.route@[i]).0 < 32768 && e.route@[i].1 < 32768
}

/// Squared Euclidean distance between two world points.
pub open spec fn dist_sq(ax: int, ay: int, bx: int, by: int) -> int {
    (ax - bx) * (ax - bx) + (ay - by) * (ay - by)
}

/// Whether the enemy is within the tower's range.
pub open spec fn in_range(t: Tower, e: Enemy) -> bool {
    dist_sq(t.x as int, t.y as int, e.x as int, e.y as int) <= t.range * t.range
}

/// The first enemy with the given identifier, in enumeration order.
pub open spec fn find_enemy(es: Seq<Enemy>, id: u64) -> Option<Enemy>
    decreases es.len(),
{
    if es.len() == 0 {
        None
    } else if es[0].id == id {
        Some(es[0])
    } else {
        find_enemy(es.drop_first(), id)
    }
}

/// The first enemy within range of the tower, in enumeration order (the
/// acquisition policy: first found, not nearest).
pub open spec fn first_target(t: Tower, es: Seq<Enemy>) -> Option<u64>
    decreases es.len(),
{
    if es.len() == 0 {
        None
    } else if in_range(t, es[0]) {
        Some(es[0].id)
    } else {
        first_target(t, es.drop_first())
    }
}

/// The target a tower holds after one targeting pass: a held target is kept
/// exactly while it still resolves to an enemy within range (sticky
/// targeting); otherwise the first enemy within range is acquired, if any.
pub open spec fn target_after(t: Tower, es: Seq<Enemy>) -> Option<u64> {
    match t.target {
        Some(id) => match find_enemy(es, id) {
            Some(e) => if in_range(t, e) {
                Some(id)
            } else {
                first_target(t, es)
            },
            None => first_target(t, es),
        },
        None => first_target(t, es),
    }
}

/// A tower after one targeting pass: only the target changes.
pub open spec fn retarget_spec(t: Tower, es: Seq<Enemy>) -> Tower {
    Tower { target: target_after(t, es), ..t }
}

/// All towers after one targeting pass.
pub open spec fn towers_after_targeting(ts: Seq<Tower>, es: Seq<Enemy>) -> Seq<Tower> {
    Seq::new(ts.len(), |i: int| retarget_spec(ts[i], es))
}

/// One seq element survives a drop of the earlier elements.
proof fn lemma_skip_step<A>(s: Seq<A>, i: int)
    requires
        0 <= i < s.len(),
    ensures
        s.skip(i).len() == s.len() - i,
        s.skip(i)[0] == s[i],
        s.skip(i).drop_first() =~= s.skip(i + 1),
{
}

/// Locate the first enemy with the given identifier.
fn find_enemy_index(enemies: &Vec<Enemy>, id: u64) -> (r: Option<usize>)
    ensures
        match r {
            Some(i) => i < enemies@.len() && enemies@[i as int].id == id
                && find_enemy(enemies@, id) == Some(enemies@[i as int]),
            None => find_enemy(enemies@, id) is None,
        },
{
    let ghost es = enemies@;
    proof {
        assert(es.skip(0) =~= es);
    }
    let mut i: usize = 0;
    while i < enemies.len()
        invariant
            i <= es.len(),
            es == enemies@,
            find_enemy(es, id) == find_enemy(es.skip(i as int), id),
            forall|j: int| 0 <= j < i ==> (#[trigger] es[j]).id != id,
        decreases es.len() - i,
    {
        proof {
            lemma_skip_step(es, i as int);
        }
        if enemies[i].id == id {
            return Some(i);
        }
        i = i + 1;
    }
    None
}

/// Whether the enemy at index `i` is within range of the tower (squared
/// distances; no floating point is needed).
fn enemy_in_range(t: &Tower, e: &Enemy) -> (r: bool)
    requires
        tower_wf(*t),
        enemy_wf(*e),
    ensures
        r == in_range(*t, *e),
{
    let dx = if t.x >= e.x { t.x - e.x } else { e.x - t.x };
    let dy = if t.y >= e.y { t.y - e.y } else { e.y - t.y };
    proof {
        assert(dx * dx == (t.x - e.x) * (t.x - e.x) && dx * dx <= 0x4000_0000_0000i64) by (nonlinear_arith)
            requires
                dx == if t.x >= e.x { t.x - e.x } else { e.x - t.x },
                -0x200000 <= t.x - e.x <= 0x200000,
        ;
        assert(dy * dy == (t.y - e.y) * (t.y - e.y) && dy * dy <= 0x4000_0000_0000i64) by (nonlinear_arith)
            requires
                dy == if t.y >= e.y { t.y - e.y } else { e.y - t.y },
                -0x200000 <= t.y - e.y <= 0x200000,
        ;
        assert(t.range * t.range <= 0x4000_0000_0000u64) by (nonlinear_arith)
            requires
                t.range <= 1000000,
        ;
    }
    let d2 = dx * dx + dy * dy;
    let r2 = (t.range * t.range) as i64;
    d2 <= r2
}

/// One targeting pass for one tower: revalidate a held target (clear it if
/// the enemy is gone or out of range), then acquire the first enemy in
/// range if no valid target is held.
fn retarget(t: Tower, enemies: &Vec<Enemy>) -> (r: Tower)
    requires
        tower_wf(t),
        forall|i: int| 0 <= i < enemies@.len() ==> enemy_wf(#[trigger] enemies@[i]),
    ensures
        r == retarget_spec(t, enemies@),
{
    let ghost es = enemies@;
    let mut keep = false;
    if let Some(id) = t.target {
        if let Some(i) = find_enemy_index(enemies, id) {
            if enemy_in_range(&t, &enemies[i]) {
                keep = true;
            }
        }
    }
    if keep {
        return Tower { target: t.target, ..t };
    }
    // scan for the first enemy in range
    proof {
        assert(es.skip(0) =~= es);
    }
    let mut i: usize = 0;
    while i < enemies.len()
        invariant
            i <= es.len(),
            es == enemies@,
            tower_wf(t),
            forall|j: int| 0 <= j < es.len() ==> enemy_wf(#[trigger] es[j]),
            first_target(t, es) == first_target(t, es.skip(i as int)),
            target_after(t, es) == first_target(t, es),
        decreases es.len() - i,
    {
        proof {
            lemma_skip_step(es, i as int);
        }
        if enemy_in_range(&t, &enemies[i]) {
            return Tower { target: Some(enemies[i].id), ..t };
        }
        i = i + 1;
    }
    Tower { target: None, ..t }
}

/// `h` after taking `d` damage, floored at zero.
pub open spec fn sub_sat(h: u64, d: u64) -> u64 {
    if h > d {
        (h - d) as u64
    } else {
        0
    }
}

/// An enemy after taking one shot.
pub open spec fn hit_enemy(e: Enemy, dmg: u64) -> Enemy {
    Enemy { health: sub_sat(e.health, dmg), ..e }
}

/// The enemies after a shot lands on the one carrying `id` (identifiers are
/// unique, so at most one entry changes); a stale identifier hits nobody.
pub open spec fn enemies_hit(es: Seq<Enemy>, id: u64, dmg: u64) -> Seq<Enemy> {
    Seq::new(es.len(), |i: int| if es[i].id == id {
        hit_enemy(es[i], dmg)
    } else {
        es[i]
    })
}

/// One combat pass for one tower: with a target held, the fire timer
/// accumulates the elapsed time and, on reaching the fire period, a shot of
/// `damage` lands on the target (silently dropped if the target no longer
/// resolves) and the timer resets; without a target the timer is reset.
pub open spec fn combat_tower(t: Tower, es: Seq<Enemy>, dt: u64) -> (Tower, Seq<Enemy>) {
    match t.target {
        Some(id) => if t.fire_elapsed + dt >= t.fire_period {
            (Tower { fire_elapsed: 0, ..t }, enemies_hit(es, id, t.damage))
        } else {
            (Tower { fire_elapsed: (t.fire_elapsed + dt) as u64, ..t }, es)
        },
        None => (Tower { fire_elapsed: 0, ..t }, es),
    }
}

/// One combat pass over all towers, in order.
pub open spec fn combat_fold(ts: Seq<Tower>, es: Seq<Enemy>, dt: u64) -> (Seq<Tower>, Seq<Enemy>)
    decreases ts.len(),
{
    if ts.len() == 0 {
        (Seq::empty(), es)
    } else {
        let prev = combat_fold(ts.drop_last(), es, dt);
        let step = combat_tower(ts.last(), prev.1, dt);
        (prev.0.push(step.0), step.1)
    }
}

/// When the identifier search fails, no enemy carries the identifier.
proof fn lemma_find_enemy_none(es: Seq<Enemy>, id: u64)
    requires
        find_enemy(es, id) is None,
    ensures
        forall|j: int| 0 <= j < es.len() ==> (#[trigger] es[j]).id != id,
    decreases es.len(),
{
    if es.len() > 0 {
        lemma_find_enemy_none(es.drop_first(), id);
        assert forall|j: int| 0 <= j < es.len() implies (#[trigger] es[j]).id != id by {
            if j > 0 {
                assert(es.drop_first()[j - 1] == es[j]);
            }
        }
    }
}

/// One combat pass for one tower, mutating the enemy list in place.
fn combat_tower_exec(t: Tower, enemies: &mut Vec<Enemy>, dt: u64) -> (r: Tower)
    requires
        tower_wf(t),
        dt <= TICK_MAX,
        forall|i: int, j: int| 0 <= i < j < old(enemies)@.len()
            ==> (#[trigger] old(enemies)@[i]).id < (#[trigger] old(enemies)@[j]).id,
    ensures
        r == combat_tower(t, old(enemies)@, dt).0,
        final(enemies)@ == combat_tower(t, old(enemies)@, dt).1,
{
    let ghost es0 = enemies@;
    if let Some(id) = t.target {
        let acc = t.fire_elapsed + dt;
        if acc >= t.fire_period {
            if let Some(k) = find_enemy_index(enemies, id) {
                let mut e = enemies.remove(k);
                e.health = if e.health > t.damage {
                    e.health - t.damage
                } else {
                    0
                };
                enemies.insert(k, e);
                proof {
                    // identifiers are strictly increasing, so only index `k`
                    // carries the target's identifier
                    assert forall|j: int| 0 <= j < es0.len() && j != k
                        implies (#[trigger] es0[j]).id != id by {
                        if j < k {
                            assert(es0[j].id < es0[k as int].id);
                        } else {
                            assert(es0[k as int].id < es0[j].id);
                        }
                    }
                    assert(enemies@ =~= enemies_hit(es0, id, t.damage));
                }
            } else {
                proof {
                    lemma_find_enemy_none(es0, id);
                    assert(enemies@ =~= enemies_hit(es0, id, t.damage));
                }
            }
            Tower { fire_elapsed: 0, ..t }
        } else {
            Tower { fire_elapsed: acc, ..t }
        }
    } else {
        Tower { fire_elapsed: 0, ..t }
    }
}

/// Absolute difference of two world coordinates.
pub open spec fn abs_diff(a: int, b: int) -> int {
    if a >= b {
        a - b
    } else {
        b - a
    }
}

/// A coordinate moved toward `target` by at most `budget`, never
/// overshooting.
pub open spec fn move_coord(pos: int, target: int, budget: int) -> int {
    if pos < target {
        if target - pos <= budget {
            target
        } else {
            pos + budget
        }
    } else if pos > target {
        if pos - target <= budget {
            target
        } else {
            pos - budget
        }
    } else {
        pos
    }
}

/// An enemy advanced by a movement budget (in world units): it moves toward
/// its current waypoint axis by axis (x first), consumes the waypoint when
/// it lands on it exactly, and continues toward the next waypoint with the
/// leftover budget.  When source and target coincide the move is a no-op
/// rather than an undefined direction.
pub open spec fn step_enemy(e: Enemy, budget: int) -> Enemy
    decreases e.route.len() - e.route_idx,
{
    if budget <= 0 || e.route_idx >= e.route.len() {
        e
    } else {
        let w = e.route@[e.route_idx as int];
        let tx = world_of(w.0 as int);
        let ty = world_of(w.1 as int);
        let dx = abs_diff(e.x as int, tx);
        let dy = abs_diff(e.y as int, ty);
        if dx + dy <= budget {
            step_enemy(
                Enemy { x: tx as i64, y: ty as i64, route_idx: (e.route_idx + 1) as usize, ..e },
                budget - dx - dy,
            )
        } else if dx >= budget {
            Enemy { x: move_coord(e.x as int, tx, budget) as i64, ..e }
        } else {
            Enemy { x: tx as i64, y: move_coord(e.y as int, ty, budget - dx) as i64, ..e }
        }
    }
}

/// The movement budget of one tick: speed (units per second) times elapsed
/// milliseconds.
pub open spec fn move_budget(speed: u64, dt: u64) -> int {
    speed * dt / 1000
}

/// An enemy after one movement pass.
pub open spec fn enemy_after_move(e: Enemy, dt: u64) -> Enemy {
    step_enemy(e, move_budget(e.speed, dt))
}

/// Whether the enemy has arrived: its route is fully consumed while it is
/// still alive.  (A dead enemy with a consumed route is left for the
/// lifecycle pass and deals no arrival damage.)
pub open spec fn arrives(e: Enemy) -> bool {
    e.route_idx >= e.route.len() && e.health > 0
}

/// The enemies after one movement pass: arrivals are removed, everyone else
/// moves along its route.
pub open spec fn surviving(es: Seq<Enemy>, dt: u64) -> Seq<Enemy>
    decreases es.len(),
{
    if es.len() == 0 {
        Seq::empty()
    } else {
        let prev = surviving(es.drop_last(), dt);
        if arrives(es.last()) {
            prev
        } else {
            prev.push(enemy_after_move(es.last(), dt))
        }
    }
}

/// How many enemies arrive during one movement pass.
pub open spec fn arrivals_count(es: Seq<Enemy>) -> int
    decreases es.len(),
{
    if es.len() == 0 {
        0
    } else {
        arrivals_count(es.drop_last()) + if arrives(es.last()) {
            1int
        } else {
            0int
        }
    }
}

/// The nexus health after one movement pass: each arrival removes
/// `ARRIVAL_DAMAGE`, floored at zero.
pub open spec fn nexus_after_move(es: Seq<Enemy>, h: u64) -> u64
    decreases es.len(),
{
    if es.len() == 0 {
        h
    } else {
        let h1 = nexus_after_move(es.drop_last(), h);
        if arrives(es.last()) {
            sub_sat(h1, ARRIVAL_DAMAGE)
        } else {
            h1
        }
    }
}

/// Movement only changes an enemy's position and route cursor, and keeps it
/// well formed.
proof fn lemma_step_enemy_props(e: Enemy, b: int)
    requires
        enemy_wf(e),
        b >= 0,
    ensures
        step_enemy(e, b).id == e.id,
        step_enemy(e, b).speed == e.speed,
        step_enemy(e, b).health == e.health,
        step_enemy(e, b).route == e.route,
        step_enemy(e, b).route_idx >= e.route_idx,
        enemy_wf(step_enemy(e, b)),
    decreases e.route.len() - e.route_idx,
{
    if b <= 0 || e.route_idx >= e.route.len() {
    } else {
        let w = e.route@[e.route_idx as int];
        let tx = world_of(w.0 as int);
        let ty = world_of(w.1 as int);
        assert(0 <= tx <= WORLD_MAX && 0 <= ty <= WORLD_MAX);
        let dx = abs_diff(e.x as int, tx);
        let dy = abs_diff(e.y as int, ty);
        if dx + dy <= b {
            let e2 = Enemy { x: tx as i64, y: ty as i64, route_idx: (e.route_idx + 1) as usize, ..e };
            assert(enemy_wf(e2));
            lemma_step_enemy_props(e2, b - dx - dy);
        }
    }
}

/// The movement pass keeps the enemy list well formed: identifiers stay
/// strictly increasing and bounded, every survivor stays well formed, and
/// nobody is added.
proof fn lemma_surviving_wf(es: Seq<Enemy>, dt: u64, bound: u64)
    requires
        forall|i: int| 0 <= i < es.len() ==> enemy_wf(#[trigger] es[i]),
        forall|i: int, j: int| 0 <= i < j < es.len()
            ==> (#[trigger] es[i]).id < (#[trigger] es[j]).id,
        forall|i: int| 0 <= i < es.len() ==> (#[trigger] es[i]).id < bound,
    ensures
        surviving(es, dt).len() <= es.len(),
        forall|i: int| 0 <= i < surviving(es, dt).len()
            ==> enemy_wf(#[trigger] surviving(es, dt)[i]),
        forall|i: int, j: int| 0 <= i < j < surviving(es, dt).len()
            ==> (#[trigger] surviving(es, dt)[i]).id < (#[trigger] surviving(es, dt)[j]).id,
        forall|i: int| 0 <= i < surviving(es, dt).len()
            ==> (#[trigger] surviving(es, dt)[i]).id < bound,
        es.len() > 0 ==> forall|i: int| 0 <= i < surviving(es, dt).len()
            ==> (#[trigger] surviving(es, dt)[i]).id <= es.last().id,
    decreases es.len(),
{
    if es.len() > 0 {
        let dl = es.drop_last();
        lemma_surviving_wf(dl, dt, bound);
        if !arrives(es.last()) {
            lemma_step_enemy_props(es.last(), move_budget(es.last().speed, dt));
        }
        assert forall|i: int| 0 <= i < dl.len() implies (#[trigger] dl[i]) == es[i] by {}
        if dl.len() > 0 {
            assert(dl.last() == es[es.len() - 2]);
        }
    }
}

/// Advance one enemy by a movement budget, consuming waypoints as it
/// reaches them.
fn move_enemy(e: &mut Enemy, budget: u64)
    requires
        enemy_wf(*old(e)),
        budget <= 1000000000000000,
    ensures
        *final(e) == step_enemy(*old(e), budget as int),
        enemy_wf(*final(e)),
{
    let ghost orig: Enemy = *e;
    let mut b = budget;
    while b > 0 && e.route_idx < e.route.len()
        invariant
            enemy_wf(*e),
            b <= budget,
            step_enemy(*e, b as int) == step_enemy(orig, budget as int),
        decreases e.route.len() - e.route_idx, b,
    {
        let w = e.route[e.route_idx];
        let tx = ((w.0 as u64) * TILE_SIZE) as i64;
        let ty = ((w.1 as u64) * TILE_SIZE) as i64;
        let dx = if e.x >= tx {
            (e.x - tx) as u64
        } else {
            (tx - e.x) as u64
        };
        let dy = if e.y >= ty {
            (e.y - ty) as u64
        } else {
            (ty - e.y) as u64
        };
        if dx + dy <= b {
            e.x = tx;
            e.y = ty;
            e.route_idx = e.route_idx + 1;
            b = b - (dx + dy);
        } else if dx >= b {
            if e.x < tx {
                e.x = e.x + b as i64;
            } else {
                e.x = e.x - b as i64;
            }
            b = 0;
        } else {
            e.x = tx;
            let rem = b - dx;
            if e.y < ty {
                e.y = e.y + rem as i64;
            } else {
                e.y = e.y - rem as i64;
            }
            b = 0;
        }
    }
}

/// The enemies alive after a lifecycle pass: those whose health is still
/// positive, in order.
pub open spec fn live_enemies(es: Seq<Enemy>) -> Seq<Enemy>
    decreases es.len(),
{
    if es.len() == 0 {
        Seq::empty()
    } else {
        let prev = live_enemies(es.drop_last());
        if es.last().health > 0 {
            prev.push(es.last())
        } else {
            prev
        }
    }
}

/// The lifecycle pass keeps the enemy list well formed.
proof fn lemma_live_wf(es: Seq<Enemy>, bound: u64)
    requires
        forall|i: int| 0 <= i < es.len() ==> enemy_wf(#[trigger] es[i]),
        forall|i: int, j: int| 0 <= i < j < es.len()
            ==> (#[trigger] es[i]).id < (#[trigger] es[j]).id,
        forall|i: int| 0 <= i < es.len() ==> (#[trigger] es[i]).id < bound,
    ensures
        live_enemies(es).len() <= es.len(),
        forall|i: int| 0 <= i < live_enemies(es).len()
            ==> enemy_wf(#[trigger] live_enemies(es)[i]) && live_enemies(es)[i].health > 0,
        forall|i: int, j: int| 0 <= i < j < live_enemies(es).len()
            ==> (#[trigger] live_enemies(es)[i]).id < (#[trigger] live_enemies(es)[j]).id,
        forall|i: int| 0 <= i < live_enemies(es).len()
            ==> (#[trigger] live_enemies(es)[i]).id < bound,
        es.len() > 0 ==> forall|i: int| 0 <= i < live_enemies(es).len()
            ==> (#[trigger] live_enemies(es)[i]).id <= es.last().id,
    decreases es.len(),
{
    if es.len() > 0 {
        let dl = es.drop_last();
        lemma_live_wf(dl, bound);
        assert forall|i: int| 0 <= i < dl.len() implies (#[trigger] dl[i]) == es[i] by {}
        if dl.len() > 0 {
            assert(dl.last() == es[es.len() - 2]);
        }
    }
}

/// Whether the maze currently offers no route from the entrance to the
/// nexus (a valid degenerate state; spawning just skips its cycle).
pub open spec fn no_route(m: Maze) -> bool {
    !{
        &&& tile_is_floor(m.tiles@, m.width as int, m.height as int, m.entrance_cell())
        &&& tile_is_floor(m.tiles@, m.width as int, m.height as int, m.nexus_cell())
        &&& reachable(m.tiles@, m.width as int, m.height as int, m.entrance_cell(), m.nexus_cell())
    }
}

/// What a freshly spawned enemy looks like: the next free identifier, the
/// entrance's world position, the given speed and health, and a shortest
/// route from the entrance to the nexus, unconsumed.
pub open spec fn spawned_enemy(pre: Simulation, e: Enemy, speed: u64, health: u64) -> bool {
    &&& e.id == pre.next_enemy_id
    &&& e.x == world_of(pre.maze.entrance.0 as int)
    &&& e.y == world_of(pre.maze.entrance.1 as int)
    &&& e.speed == speed
    &&& e.health == health
    &&& e.route_idx == 0
    &&& route_ok(pre.maze.tiles@, pre.maze.width as int, pre.maze.height as int, e.route@,
        pre.maze.entrance, pre.maze.nexus_pos)
    &&& forall|q: Seq<(int, int)>|
        #[trigger] floor_path_ok(pre.maze.tiles@, pre.maze.width as int, pre.maze.height as int, q)
            && q[0] == pre.maze.entrance_cell() && q.last() == pre.maze.nexus_cell()
            ==> q.len() >= e.route@.len()
}

/// Whether the spawn timer expires during this tick.
pub open spec fn spawn_fires(pre: Simulation, dt: u64) -> bool {
    pre.spawn_elapsed + dt >= pre.spawn_period
}

/// The spawn timer after this tick (a repeating timer: it wraps around its
/// period and keeps the overshoot).
pub open spec fn timer_after(pre: Simulation, dt: u64) -> u64 {
    (((pre.spawn_elapsed + dt) as int) % (pre.spawn_period as int)) as u64
}

/// The spawn pass: the timer advances; on expiry, one enemy with the
/// default speed and health is spawned at the entrance with a shortest
/// route to the nexus — unless no such route exists, in which case the
/// cycle is skipped.  Nothing else changes.
pub open spec fn spawn_rel(pre: Simulation, post: Simulation, dt: u64) -> bool {
    &&& post.maze == pre.maze
    &&& post.state == pre.state
    &&& post.nexus_health == pre.nexus_health
    &&& post.towers == pre.towers
    &&& post.spawn_period == pre.spawn_period
    &&& post.spawn_elapsed == timer_after(pre, dt)
    &&& if spawn_fires(pre, dt) {
        ||| {
            &&& post.enemies == pre.enemies
            &&& post.next_enemy_id == pre.next_enemy_id
            &&& no_route(pre.maze)
        }
        ||| {
            &&& post.enemies@.len() == pre.enemies@.len() + 1
            &&& post.enemies@ == pre.enemies@.push(post.enemies@.last())
            &&& spawned_enemy(pre, post.enemies@.last(), ENEMY_SPEED, ENEMY_HEALTH)
            &&& post.next_enemy_id == pre.next_enemy_id + 1
        }
    } else {
        post.enemies == pre.enemies && post.next_enemy_id == pre.next_enemy_id
    }
}

/// The deterministic part of one tick, from the state `mid` right after the
/// spawn pass: targeting, combat, movement, lifecycle, and the nexus
/// monitor, in that order.
pub open spec fn systems_rel(mid: Simulation, post: Simulation, dt: u64) -> bool {
    let ts1 = towers_after_targeting(mid.towers@, mid.enemies@);
    let cb = combat_fold(ts1, mid.enemies@, dt);
    let es3 = surviving(cb.1, dt);
    let h3 = nexus_after_move(cb.1, mid.nexus_health);
    let es4 = live_enemies(es3);
    &&& post.maze == mid.maze
    &&& post.towers@ == cb.0
    &&& post.enemies@ == es4
    &&& post.nexus_health == h3
    &&& post.state == (if h3 == 0 && mid.state is InGame {
        GameState::GameOver
    } else {
        mid.state
    })
    &&& post.next_enemy_id == mid.next_enemy_id
    &&& post.spawn_period == mid.spawn_period
    &&& post.spawn_elapsed == mid.spawn_elapsed
}

/// One full tick: outside the running state it is a no-op; in the running
/// state the spawn pass picks some (unspecified but valid) shortest route
/// outcome, and the remaining systems are a function of its result.
pub open spec fn tick_rel(pre: Simulation, post: Simulation, dt: u64) -> bool {
    if pre.state is InGame {
        exists|mid: Simulation| #[trigger] spawn_rel(pre, mid, dt) && systems_rel(mid, post, dt)
    } else {
        post == pre
    }
}

/// The simulation state: the maze, the entities, the nexus health, the
/// spawn timer, and the high-level game state.
pub struct Simulation {
    pub maze: Maze,
    pub state: GameState,
    pub nexus_health: u64,
    pub towers: Vec<Tower>,
    pub enemies: Vec<Enemy>,
    pub next_enemy_id: u64,
    pub spawn_period: u64,
    pub spawn_elapsed: u64,
}

impl Simulation {
    /// Well-formedness: the maze is well formed, the spawn timer is
    /// positive, bounded and mid-cycle, every entity is well formed, and
    /// enemy identifiers are strictly increasing and below the next free
    /// identifier.
    pub open spec fn wf(self) -> bool {
        &&& self.maze.wf()
        &&& 0 < self.spawn_period <= TICK_MAX
        &&& self.spawn_elapsed < self.spawn_period
        &&& forall|i: int| 0 <= i < self.towers@.len() ==> tower_wf(#[trigger] self.towers@[i])
        &&& forall|i: int| 0 <= i < self.enemies@.len() ==> enemy_wf(#[trigger] self.enemies@[i])
        &&& forall|i: int, j: int| 0 <= i < j < self.enemies@.len()
            ==> (#[trigger] self.enemies@[i]).id < (#[trigger] self.enemies@[j]).id
        &&& forall|i: int| 0 <= i < self.enemies@.len()
            ==> (#[trigger] self.enemies@[i]).id < self.next_enemy_id
    }

    /// The targeting pass: every tower revalidates its held target and
    /// acquires the first enemy in range if it holds none.  Only the
    /// towers' targets change.
    pub fn targeting_system(&mut self)
        requires
            old(self).wf(),
        ensures
            final(self).wf(),
            final(self).towers@ == towers_after_targeting(old(self).towers@, old(self).enemies@),
            final(self).maze == old(self).maze,
            final(self).state == old(self).state,
            final(self).nexus_health == old(self).nexus_health,
            final(self).enemies == old(self).enemies,
            final(self).next_enemy_id == old(self).next_enemy_id,
            final(self).spawn_period == old(self).spawn_period,
            final(self).spawn_elapsed == old(self).spawn_elapsed,
    {
        let ghost ts0 = self.towers@;
        let ghost es0 = self.enemies@;
        let mut i: usize = 0;
        while i < self.towers.len()
            invariant
                i <= ts0.len(),
                self.towers@.len() == ts0.len(),
                es0 == self.enemies@,
                forall|j: int| 0 <= j < ts0.len() ==> tower_wf(#[trigger] ts0[j]),
                forall|j: int| 0 <= j < es0.len() ==> enemy_wf(#[trigger] es0[j]),
                forall|j: int| 0 <= j < i ==> self.towers@[j] == retarget_spec(ts0[j], es0),
                forall|j: int| i <= j < ts0.len() ==> self.towers@[j] == ts0[j],
                self.maze == old(self).maze,
                self.state == old(self).state,
                self.nexus_health == old(self).nexus_health,
                self.enemies == old(self).enemies,
                self.next_enemy_id == old(self).next_enemy_id,
                self.spawn_period == old(self).spawn_period,
                self.spawn_elapsed == old(self).spawn_elapsed,
            decreases ts0.len() - i,
        {
            let t = self.towers[i];
            let nt = retarget(t, &self.enemies);
            self.towers.set(i, nt);
            i = i + 1;
        }
        proof {
            assert(self.towers@ =~= towers_after_targeting(ts0, es0));
            assert forall|j: int| 0 <= j < self.towers@.len()
                implies tower_wf(#[trigger] self.towers@[j]) by {
                assert(self.towers@[j] == retarget_spec(ts0[j], es0));
            }
        }
    }

    /// The combat pass: each tower holding a target advances its fire
    /// timer by the elapsed time and, on expiry, lands one shot on its
    /// target (dropped if the target is gone) and resets the timer.
    pub fn combat_system(&mut self, dt: u64)
        requires
            old(self).wf(),
            dt <= TICK_MAX,
        ensures
            final(self).wf(),
            final(self).towers@ == combat_fold(old(self).towers@, old(self).enemies@, dt).0,
            final(self).enemies@ == combat_fold(old(self).towers@, old(self).enemies@, dt).1,
            final(self).maze == old(self).maze,
            final(self).state == old(self).state,
            final(self).nexus_health == old(self).nexus_health,
            final(self).next_enemy_id == old(self).next_enemy_id,
            final(self).spawn_period == old(self).spawn_period,
            final(self).spawn_elapsed == old(self).spawn_elapsed,
    {
        let ghost ts0 = self.towers@;
        let ghost es0 = self.enemies@;
        proof {
            assert(ts0.subrange(0, 0) =~= Seq::<Tower>::empty());
        }
        let mut i: usize = 0;
        while i < self.towers.len()
            invariant
                dt <= TICK_MAX,
                i <= ts0.len(),
                self.towers@.len() == ts0.len(),
                forall|j: int| 0 <= j < ts0.len() ==> tower_wf(#[trigger] ts0[j]),
                forall|j: int| 0 <= j < i ==> tower_wf(#[trigger] self.towers@[j]),
                self.towers@.subrange(0, i as int) == combat_fold(ts0.subrange(0, i as int), es0, dt).0,
                self.enemies@ == combat_fold(ts0.subrange(0, i as int), es0, dt).1,
                forall|j: int| i <= j < ts0.len() ==> self.towers@[j] == ts0[j],
                self.enemies@.len() == es0.len(),
                forall|j: int| 0 <= j < es0.len()
                    ==> (#[trigger] self.enemies@[j]).id == es0[j].id
                        && enemy_wf(self.enemies@[j]),
                forall|j: int| 0 <= j < es0.len() ==> enemy_wf(#[trigger] es0[j]),
                forall|j: int, k: int| 0 <= j < k < es0.len()
                    ==> (#[trigger] es0[j]).id < (#[trigger] es0[k]).id,
                forall|j: int| 0 <= j < es0.len()
                    ==> (#[trigger] es0[j]).id < old(self).next_enemy_id,
                self.maze == old(self).maze,
                self.state == old(self).state,
                self.nexus_health == old(self).nexus_health,
                self.next_enemy_id == old(self).next_enemy_id,
                self.spawn_period == old(self).spawn_period,
                self.spawn_elapsed == old(self).spawn_elapsed,
            decreases ts0.len() - i,
        {
            let ghost es_pre = self.enemies@;
            let t = self.towers[i];
            proof {
                assert(tower_wf(ts0[i as int]));
            }
            let nt = combat_tower_exec(t, &mut self.enemies, dt);
            self.towers.set(i, nt);
            proof {
                assert(ts0.subrange(0, i + 1).drop_last() =~= ts0.subrange(0, i as int));
                assert(ts0.subrange(0, i + 1).last() == ts0[i as int]);
                assert(self.towers@.subrange(0, i + 1)
                    =~= combat_fold(ts0.subrange(0, i + 1), es0, dt).0);
                // one combat pass only lowers one enemy's health
                assert forall|j: int| 0 <= j < es0.len()
                    implies (#[trigger] self.enemies@[j]).id == es0[j].id
                        && enemy_wf(self.enemies@[j]) by {
                    assert(es_pre[j].id == es0[j].id && enemy_wf(es_pre[j]));
                }
            }
            i = i + 1;
        }
        proof {
            assert(ts0.subrange(0, ts0.len() as int) =~= ts0);
            assert(self.towers@.subrange(0, ts0.len() as int) =~= self.towers@);
        }
    }

    /// The movement pass: every enemy advances along its route by its speed
    /// times the elapsed time; an enemy whose route is already fully
    /// consumed has reached the nexus, is destroyed, and removes
    /// `ARRIVAL_DAMAGE` from the nexus health — unless it is already dead,
    /// in which case it is left for the lifecycle pass and deals no damage.
    pub fn movement_system(&mut self, dt: u64)
        requires
            old(self).wf(),
            dt <= TICK_MAX,
        ensures
            final(self).wf(),
            final(self).enemies@ == surviving(old(self).enemies@, dt),
            final(self).nexus_health == nexus_after_move(old(self).enemies@, old(self).nexus_health),
            final(self).maze == old(self).maze,
            final(self).state == old(self).state,
            final(self).towers == old(self).towers,
            final(self).next_enemy_id == old(self).next_enemy_id,
            final(self).spawn_period == old(self).spawn_period,
            final(self).spawn_elapsed == old(self).spawn_elapsed,
    {
        let ghost es0 = self.enemies@;
        let ghost h0 = self.nexus_health;
        proof {
            assert(es0.len() == self.enemies.len());
        }
        let mut src: Vec<Enemy> = Vec::new();
        core::mem::swap(&mut self.enemies, &mut src);
        proof {
            assert(es0.subrange(0, 0) =~= Seq::<Enemy>::empty());
            assert(es0.skip(0) =~= es0);
        }
        let mut j: usize = 0;
        while src.len() > 0
            invariant
                dt <= TICK_MAX,
                es0.len() <= usize::MAX,
                j + src@.len() == es0.len(),
                src@ == es0.skip(j as int),
                self.enemies@ == surviving(es0.subrange(0, j as int), dt),
                self.nexus_health == nexus_after_move(es0.subrange(0, j as int), h0),
                forall|i: int| 0 <= i < es0.len() ==> enemy_wf(#[trigger] es0[i]),
                self.maze == old(self).maze,
                self.state == old(self).state,
                self.towers == old(self).towers,
                self.next_enemy_id == old(self).next_enemy_id,
                self.spawn_period == old(self).spawn_period,
                self.spawn_elapsed == old(self).spawn_elapsed,
            decreases src@.len(),
        {
            proof {
                lemma_skip_step(es0, j as int);
                assert(es0.subrange(0, j + 1).drop_last() =~= es0.subrange(0, j as int));
                assert(es0.subrange(0, j + 1).last() == es0[j as int]);
                assert(enemy_wf(es0[j as int]));
                assert(es0.skip(j as int).remove(0) =~= es0.skip(j as int).drop_first());
            }
            let mut e = src.remove(0);
            if e.route_idx >= e.route.len() {
                if e.health > 0 {
                    // arrival: the enemy is destroyed and damages the nexus
                    self.nexus_health = if self.nexus_health > ARRIVAL_DAMAGE {
                        self.nexus_health - ARRIVAL_DAMAGE
                    } else {
                        0
                    };
                } else {
                    proof {
                        assert(enemy_after_move(es0[j as int], dt) == e);
                    }
                    self.enemies.push(e);
                }
            } else {
                proof {
                    assert(e.speed * dt <= 1000000000000000) by (nonlinear_arith)
                        requires
                            e.speed <= 1000000,
                            dt <= 1000000000,
                    ;
                }
                let b = e.speed * dt / 1000;
                move_enemy(&mut e, b);
                self.enemies.push(e);
            }
            j = j + 1;
        }
        proof {
            assert(es0.subrange(0, es0.len() as int) =~= es0);
            lemma_surviving_wf(es0, dt, old(self).next_enemy_id);
        }
    }

    /// The lifecycle pass: every enemy whose health has reached zero is
    /// removed from the live set.
    pub fn lifecycle_system(&mut self)
        requires
            old(self).wf(),
        ensures
            final(self).wf(),
            final(self).enemies@ == live_enemies(old(self).enemies@),
            final(self).maze == old(self).maze,
            final(self).state == old(self).state,
            final(self).nexus_health == old(self).nexus_health,
            final(self).towers == old(self).towers,
            final(self).next_enemy_id == old(self).next_enemy_id,
            final(self).spawn_period == old(self).spawn_period,
            final(self).spawn_elapsed == old(self).spawn_elapsed,
    {
        let ghost es0 = self.enemies@;
        proof {
            assert(es0.len() == self.enemies.len());
        }
        let mut src: Vec<Enemy> = Vec::new();
        core::mem::swap(&mut self.enemies, &mut src);
        proof {
            assert(es0.subrange(0, 0) =~= Seq::<Enemy>::empty());
            assert(es0.skip(0) =~= es0);
        }
        let mut j: usize = 0;
        while src.len() > 0
            invariant
                es0.len() <= usize::MAX,
                j + src@.len() == es0.len(),
                src@ == es0.skip(j as int),
                self.enemies@ == live_enemies(es0.subrange(0, j as int)),
                self.maze == old(self).maze,
                self.state == old(self).state,
                self.nexus_health == old(self).nexus_health,
                self.towers == old(self).towers,
                self.next_enemy_id == old(self).next_enemy_id,
                self.spawn_period == old(self).spawn_period,
                self.spawn_elapsed == old(self).spawn_elapsed,
            decreases src@.len(),
        {
            proof {
                lemma_skip_step(es0, j as int);
                assert(es0.subrange(0, j + 1).drop_last() =~= es0.subrange(0, j as int));
                assert(es0.subrange(0, j + 1).last() == es0[j as int]);
                assert(es0.skip(j as int).remove(0) =~= es0.skip(j as int).drop_first());
            }
            let e = src.remove(0);
            if e.health > 0 {
                self.enemies.push(e);
            }
            j = j + 1;
        }
        proof {
            assert(es0.subrange(0, es0.len() as int) =~= es0);
            lemma_live_wf(es0, old(self).next_enemy_id);
        }
    }

    /// The nexus health monitor: when the nexus health has reached zero
    /// while the game is running, the game enters the terminal game-over
    /// state, exactly once; the transition never runs in any other state.
    pub fn nexus_monitor(&mut self)
        requires
            old(self).wf(),
        ensures
            final(self).wf(),
            final(self).state == (if old(self).nexus_health == 0 && old(self).state is InGame {
                GameState::GameOver
            } else {
                old(self).state
            }),
            final(self).maze == old(self).maze,
            final(self).nexus_health == old(self).nexus_health,
            final(self).towers == old(self).towers,
            final(self).enemies == old(self).enemies,
            final(self).next_enemy_id == old(self).next_enemy_id,
            final(self).spawn_period == old(self).spawn_period,
            final(self).spawn_elapsed == old(self).spawn_elapsed,
    {
        if self.nexus_health == 0 && matches!(self.state, GameState::InGame) {
            self.state = GameState::GameOver;
        }
    }

    /// A fresh simulation over a generated maze: in the menu state, full
    /// nexus health, no entities, and the default spawn period.
    pub fn new(maze: Maze) -> (s: Simulation)
        requires
            maze.wf(),
        ensures
            s.wf(),
            s.maze == maze,
            s.state == GameState::MainMenu,
            s.nexus_health == NEXUS_START_HEALTH,
            s.towers@.len() == 0,
            s.enemies@.len() == 0,
            s.next_enemy_id == 0,
            s.spawn_period == SPAWN_PERIOD,
            s.spawn_elapsed == 0,
    {
        Simulation {
            maze,
            state: GameState::MainMenu,
            nexus_health: NEXUS_START_HEALTH,
            towers: Vec::new(),
            enemies: Vec::new(),
            next_enemy_id: 0,
            spawn_period: SPAWN_PERIOD,
            spawn_elapsed: 0,
        }
    }

    /// Enter the running state from the menu (the externally triggered
    /// transition); in any other state this does nothing.
    pub fn start(&mut self)
        requires
            old(self).wf(),
        ensures
            final(self).wf(),
            final(self).state == (if old(self).state is MainMenu {
                GameState::InGame
            } else {
                old(self).state
            }),
            final(self).maze == old(self).maze,
            final(self).nexus_health == old(self).nexus_health,
            final(self).towers == old(self).towers,
            final(self).enemies == old(self).enemies,
            final(self).next_enemy_id == old(self).next_enemy_id,
            final(self).spawn_period == old(self).spawn_period,
            final(self).spawn_elapsed == old(self).spawn_elapsed,
    {
        if matches!(self.state, GameState::MainMenu) {
            self.state = GameState::InGame;
        }
    }

    /// Request tower placement at a grid cell: a default tower appears on
    /// the cell's world position exactly when the cell is in bounds and a
    /// wall tile; anything else is silently a no-op.
    pub fn place_tower(&mut self, x: usize, y: usize)
        requires
            old(self).wf(),
        ensures
            final(self).wf(),
            placement_ok(old(self).maze, x as int, y as int)
                ==> final(self).towers@ == old(self).towers@.push(default_tower_at(x as int, y as int)),
            !placement_ok(old(self).maze, x as int, y as int)
                ==> final(self).towers == old(self).towers,
            final(self).maze == old(self).maze,
            final(self).state == old(self).state,
            final(self).nexus_health == old(self).nexus_health,
            final(self).enemies == old(self).enemies,
            final(self).next_enemy_id == old(self).next_enemy_id,
            final(self).spawn_period == old(self).spawn_period,
            final(self).spawn_elapsed == old(self).spawn_elapsed,
    {
        if x < self.maze.width && y < self.maze.height {
            proof {
                assert(self.maze.width * self.maze.height <= 0x4000_0000) by (nonlinear_arith)
                    requires
                        self.maze.width <= 32768,
                        self.maze.height <= 32768,
                ;
                lemma_grid_idx_bounds(self.maze.width as int, self.maze.height as int,
                    (x as int, y as int));
            }
            let idx = y * self.maze.width + x;
            if matches!(self.maze.tiles[idx], Tile::Wall) {
                let t = Tower {
                    x: ((x as u64) * TILE_SIZE) as i64,
                    y: ((y as u64) * TILE_SIZE) as i64,
                    range: TOWER_RANGE,
                    fire_period: TOWER_FIRE_PERIOD,
                    fire_elapsed: 0,
                    damage: TOWER_DAMAGE,
                    target: None,
                };
                self.towers.push(t);
            }
        }
    }

    /// Spawn one enemy at the entrance with the given speed and health and
    /// a shortest route to the nexus.  Returns whether an enemy was
    /// spawned; it is not exactly when the maze offers no route.
    pub fn spawn_enemy(&mut self, speed: u64, health: u64) -> (r: bool)
        requires
            old(self).wf(),
            0 < speed <= 1000000,
            old(self).next_enemy_id < u64::MAX,
        ensures
            final(self).wf(),
            r ==> {
                &&& final(self).enemies@.len() == old(self).enemies@.len() + 1
                &&& final(self).enemies@ == old(self).enemies@.push(final(self).enemies@.last())
                &&& spawned_enemy(*old(self), final(self).enemies@.last(), speed, health)
                &&& final(self).next_enemy_id == old(self).next_enemy_id + 1
            },
            !r ==> {
                &&& final(self).enemies == old(self).enemies
                &&& final(self).next_enemy_id == old(self).next_enemy_id
                &&& no_route(old(self).maze)
            },
            final(self).maze == old(self).maze,
            final(self).state == old(self).state,
            final(self).nexus_health == old(self).nexus_health,
            final(self).towers == old(self).towers,
            final(self).spawn_period == old(self).spawn_period,
            final(self).spawn_elapsed == old(self).spawn_elapsed,
    {
        let entrance = self.maze.entrance;
        let nexus = self.maze.nexus_pos;
        match find_path(&self.maze, entrance, nexus) {
            Some(route) => {
                proof {
                    // route cells are floor tiles, hence inside the grid
                    assert forall|i: int| 0 <= i < route@.len()
                        implies (#[trigger] route@[i]).0 < 32768 && route@[i].1 < 32768 by {
                        assert(tile_is_floor(self.maze.tiles@, self.maze.width as int,
                            self.maze.height as int, crate::path::route_cells(route@)[i]));
                    }
                }
                let e = Enemy {
                    id: self.next_enemy_id,
                    x: ((entrance.0 as u64) * TILE_SIZE) as i64,
                    y: ((entrance.1 as u64) * TILE_SIZE) as i64,
                    speed,
                    health,
                    route,
                    route_idx: 0,
                };
                self.enemies.push(e);
                self.next_enemy_id = self.next_enemy_id + 1;
                true
            },
            None => false,
        }
    }

    /// The spawn pass: advance the repeating spawn timer by the elapsed
    /// time; on expiry, spawn one default enemy (skipped when the maze
    /// offers no route from the entrance to the nexus).
    pub fn spawn_system(&mut self, dt: u64)
        requires
            old(self).wf(),
            dt <= TICK_MAX,
            old(self).next_enemy_id < u64::MAX,
        ensures
            final(self).wf(),
            spawn_rel(*old(self), *final(self), dt),
    {
        let acc = self.spawn_elapsed + dt;
        if acc >= self.spawn_period {
            self.spawn_elapsed = acc % self.spawn_period;
            let spawned = self.spawn_enemy(ENEMY_SPEED, ENEMY_HEALTH);
            proof {
                // whichever way the spawn went, the relation holds
                assert(spawned || no_route(old(self).maze));
                assert(spawn_rel(*old(self), *self, dt));
            }
        } else {
            self.spawn_elapsed = acc;
            proof {
                assert(acc as int % self.spawn_period as int == acc as int) by (nonlinear_arith)
                    requires
                        0 <= acc < self.spawn_period,
                ;
            }
        }
    }

    /// One simulation tick: in the running state the six systems run in
    /// their fixed order (spawning, targeting, combat, movement, lifecycle,
    /// nexus monitor), each over the state the previous one produced; in
    /// any other state the tick is a no-op.
    pub fn tick(&mut self, dt: u64)
        requires
            old(self).wf(),
            dt <= TICK_MAX,
            old(self).next_enemy_id < u64::MAX,
        ensures
            final(self).wf(),
            tick_rel(*old(self), *final(self), dt),
    {
        if matches!(self.state, GameState::InGame) {
            self.spawn_system(dt);
            let ghost mid: Simulation = *self;
            self.targeting_system();
            self.combat_system(dt);
            self.movement_system(dt);
            self.lifecycle_system();
            self.nexus_monitor();
            proof {
                assert(spawn_rel(*old(self), mid, dt));
                assert(systems_rel(mid, *self, dt));
            }
        }
    }
}

/// The default tower configuration placed at a grid cell.
pub open spec fn default_tower_at(x: int, y: int) -> Tower {
    Tower {
        x: world_of(x) as i64,
        y: world_of(y) as i64,
        range: TOWER_RANGE,
        fire_period: TOWER_FIRE_PERIOD,
        fire_elapsed: 0,
        damage: TOWER_DAMAGE,
        target: None,
    }
}

/// Whether a placement request at a grid cell is accepted: in bounds and on
/// a wall tile.
pub open spec fn placement_ok(m: Maze, x: int, y: int) -> bool {
    in_grid(m.width as int, m.height as int, (x, y))
        && m.tiles@[grid_idx(m.width as int, (x, y))] is Wall
}

/// Sticky targeting: a tower whose held target still resolves to an enemy
/// within range keeps exactly that target, whatever other enemies (however
/// close) are present.
pub proof fn lemma_targeting_sticky(t: Tower, es: Seq<Enemy>, id: u64, e: Enemy)
    requires
        t.target == Some(id),
        find_enemy(es, id) == Some(e),
        in_range(t, e),
    ensures
        target_after(t, es) == Some(id),
{
}

/// A tower releases its held target only when the target is lost: the
/// enemy no longer exists or has left the tower's range.
pub proof fn lemma_targeting_release(t: Tower, es: Seq<Enemy>, id: u64)
    requires
        t.target == Some(id),
        target_after(t, es) != Some(id),
    ensures
        match find_enemy(es, id) {
            Some(e) => !in_range(t, e),
            None => true,
        },
{
}

/// Nexus damage accounting for one movement pass: the health never
/// increases, it drops by exactly the arrival damage for every arrival as
/// long as the health covers them, and any arrival strictly decreases a
/// positive health.
pub proof fn lemma_nexus_monotonic(es: Seq<Enemy>, h: u64)
    ensures
        nexus_after_move(es, h) <= h,
        arrivals_count(es) >= 0,
        h >= ARRIVAL_DAMAGE * arrivals_count(es)
            ==> nexus_after_move(es, h) == h - ARRIVAL_DAMAGE * arrivals_count(es),
        arrivals_count(es) > 0 && h > 0 ==> nexus_after_move(es, h) < h,
    decreases es.len(),
{
    if es.len() > 0 {
        lemma_nexus_monotonic(es.drop_last(), h);
    }
}

/// The nexus health never increases across a full tick.
pub proof fn lemma_tick_nexus_monotonic(pre: Simulation, post: Simulation, dt: u64)
    requires
        tick_rel(pre, post, dt),
    ensures
        post.nexus_health <= pre.nexus_health,
{
    if pre.state is InGame {
        let mid = choose|mid: Simulation| spawn_rel(pre, mid, dt) && systems_rel(mid, post, dt);
        let ts1 = towers_after_targeting(mid.towers@, mid.enemies@);
        let cb = combat_fold(ts1, mid.enemies@, dt);
        lemma_nexus_monotonic(cb.1, mid.nexus_health);
    }
}

/// The game-over state is terminal: a tick taken in it changes nothing.
pub proof fn lemma_game_over_terminal(pre: Simulation, post: Simulation, dt: u64)
    requires
        tick_rel(pre, post, dt),
        pre.state is GameOver,
    ensures
        post == pre,
        post.state is GameOver,
{
}

/// Once the nexus health reaches zero during a running tick, the tick ends
/// in the game-over state.
pub proof fn lemma_game_over_entered(pre: Simulation, post: Simulation, dt: u64)
    requires
        tick_rel(pre, post, dt),
        pre.state is InGame,
        post.nexus_health == 0,
    ensures
        post.state is GameOver,
{
    let mid = choose|mid: Simulation| spawn_rel(pre, mid, dt) && systems_rel(mid, post, dt);
}

} // verus!
