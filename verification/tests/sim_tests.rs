use chroma_maze::maze::{Maze, Tile};
use chroma_maze::sim::{
    GameState, Simulation, Tower, ARRIVAL_DAMAGE, NEXUS_START_HEALTH, SPAWN_PERIOD, TILE_SIZE,
    TOWER_DAMAGE, TOWER_FIRE_PERIOD, TOWER_RANGE,
};

fn quiet_sim(seed: u64) -> Simulation {
    // a running simulation whose spawn scheduler never fires by itself
    let maze = Maze::generate(5, 5, seed);
    let mut sim = Simulation::new(maze);
    sim.start();
    sim.spawn_period = 1_000_000_000;
    sim
}

#[test]
fn new_simulation_starts_in_menu() {
    let maze = Maze::generate(9, 9, 1);
    let sim = Simulation::new(maze);
    assert_eq!(sim.state, GameState::MainMenu);
    assert_eq!(sim.nexus_health, NEXUS_START_HEALTH);
    assert_eq!(sim.spawn_period, SPAWN_PERIOD);
    assert!(sim.towers.is_empty());
    assert!(sim.enemies.is_empty());
}

#[test]
fn start_enters_the_running_state_once() {
    let maze = Maze::generate(9, 9, 1);
    let mut sim = Simulation::new(maze);
    sim.start();
    assert_eq!(sim.state, GameState::InGame);
    sim.start();
    assert_eq!(sim.state, GameState::InGame);
}

#[test]
fn tower_placement_accepts_walls_only() {
    let mut sim = quiet_sim(3);
    sim.place_tower(0, 0); // border cells are walls
    assert_eq!(sim.towers.len(), 1);
    assert_eq!(sim.towers[0].x, 0);
    assert_eq!(sim.towers[0].y, 0);
    assert_eq!(sim.towers[0].range, TOWER_RANGE);
    assert_eq!(sim.towers[0].fire_period, TOWER_FIRE_PERIOD);
    assert_eq!(sim.towers[0].damage, TOWER_DAMAGE);
    assert_eq!(sim.towers[0].fire_elapsed, 0);
    assert_eq!(sim.towers[0].target, None);
    sim.place_tower(1, 1); // the entrance is floor: rejected
    assert_eq!(sim.towers.len(), 1);
    sim.place_tower(99, 99); // out of bounds: rejected
    assert_eq!(sim.towers.len(), 1);
}

#[test]
fn spawned_enemy_starts_at_the_entrance() {
    let mut sim = quiet_sim(3);
    assert!(sim.spawn_enemy(20, 10));
    assert_eq!(sim.enemies.len(), 1);
    let e = &sim.enemies[0];
    assert_eq!(e.id, 0);
    assert_eq!((e.x, e.y), (TILE_SIZE as i64, TILE_SIZE as i64));
    assert_eq!(e.speed, 20);
    assert_eq!(e.health, 10);
    assert_eq!(e.route[0], (1, 1));
    assert_eq!(*e.route.last().unwrap(), (2, 2));
    assert_eq!(e.route_idx, 0);
    assert_eq!(sim.next_enemy_id, 1);
}

#[test]
fn spawn_scheduler_spawns_on_its_period() {
    let maze = Maze::generate(5, 5, 8);
    let mut sim = Simulation::new(maze);
    sim.start();
    sim.tick(1000);
    assert_eq!(sim.enemies.len(), 0, "the 2000 ms spawn period has not expired yet");
    sim.tick(1000);
    assert_eq!(sim.enemies.len(), 1, "the spawn timer expired on the second tick");
}

#[test]
fn enemy_arrival_damages_the_nexus() {
    // a 5x5 maze always has a three-cell route from (1,1) to the forced
    // nexus (2,2), so a speed that covers one tile per tick arrives after
    // exactly three ticks of one time-unit each
    let mut sim = quiet_sim(21);
    assert!(sim.spawn_enemy(TILE_SIZE, 10));
    sim.tick(1000);
    assert_eq!(sim.enemies.len(), 1);
    assert_eq!(sim.nexus_health, NEXUS_START_HEALTH);
    sim.tick(1000);
    assert_eq!(sim.enemies.len(), 1);
    assert_eq!(sim.enemies[0].route_idx, sim.enemies[0].route.len());
    assert_eq!(sim.nexus_health, NEXUS_START_HEALTH);
    sim.tick(1000);
    assert_eq!(sim.enemies.len(), 0, "the enemy arrived and was destroyed");
    assert_eq!(sim.nexus_health, NEXUS_START_HEALTH - ARRIVAL_DAMAGE);
}

#[test]
fn nexus_health_never_increases_and_drops_per_arrival() {
    let mut sim = quiet_sim(21);
    assert!(sim.spawn_enemy(TILE_SIZE, 10));
    assert!(sim.spawn_enemy(TILE_SIZE, 10));
    let mut last = sim.nexus_health;
    for _ in 0..5 {
        sim.tick(1000);
        assert!(sim.nexus_health <= last);
        last = sim.nexus_health;
    }
    // both enemies arrived on the third tick
    assert_eq!(sim.enemies.len(), 0);
    assert_eq!(sim.nexus_health, NEXUS_START_HEALTH - 2 * ARRIVAL_DAMAGE);
}

#[test]
fn combat_scenario_two_shots_kill_the_enemy() {
    // one tower (range 150, fire period 1.0, damage 5) and one enemy
    // (health 10) held in range over 2.5 time-units at 0.5-unit steps:
    // exactly two shots land, and the enemy is removed on the tick where
    // its health reaches zero
    let mut sim = quiet_sim(2);
    sim.place_tower(0, 0);
    assert!(sim.spawn_enemy(1, 10)); // too slow to move a whole unit per step
    sim.tick(500);
    assert_eq!(sim.towers[0].target, Some(0));
    assert_eq!(sim.enemies[0].health, 10, "half a period: no shot yet");
    sim.tick(500);
    assert_eq!(sim.enemies[0].health, 5, "first shot after one full period");
    sim.tick(500);
    assert_eq!(sim.enemies[0].health, 5);
    sim.tick(500);
    assert_eq!(sim.enemies.len(), 0, "second shot killed it; lifecycle removed it");
    sim.tick(500);
    assert_eq!(sim.enemies.len(), 0);
    assert_eq!(sim.nexus_health, NEXUS_START_HEALTH, "no enemy ever arrived");
}

#[test]
fn targeting_is_sticky_until_the_target_is_lost() {
    let mut sim = quiet_sim(5);
    // a harmless tower so that targeting can be observed over many ticks
    sim.towers.push(Tower {
        x: 0,
        y: 0,
        range: TOWER_RANGE,
        fire_period: TOWER_FIRE_PERIOD,
        fire_elapsed: 0,
        damage: 0,
        target: None,
    });
    assert!(sim.spawn_enemy(1, 10));
    assert!(sim.spawn_enemy(1, 10));
    sim.tick(500);
    assert_eq!(sim.towers[0].target, Some(0), "first enemy in enumeration order acquired");
    // a strictly closer enemy does not steal the target
    sim.enemies[1].x = 0;
    sim.enemies[1].y = 0;
    sim.tick(500);
    assert_eq!(sim.towers[0].target, Some(0));
    sim.tick(500);
    assert_eq!(sim.towers[0].target, Some(0));
    // once the target is destroyed, the tower re-acquires
    sim.enemies[0].health = 0;
    sim.tick(500); // the lifecycle pass removes the dead target this tick
    sim.tick(500);
    assert_eq!(sim.towers[0].target, Some(1));
}

#[test]
fn target_released_when_enemy_leaves_range() {
    let mut sim = quiet_sim(5);
    sim.towers.push(Tower {
        x: 0,
        y: 0,
        range: 150,
        fire_period: TOWER_FIRE_PERIOD,
        fire_elapsed: 0,
        damage: 0,
        target: None,
    });
    assert!(sim.spawn_enemy(1, 10));
    sim.tick(500);
    assert_eq!(sim.towers[0].target, Some(0));
    // teleport the enemy far out of range
    sim.enemies[0].x = 5000;
    sim.enemies[0].y = 5000;
    sim.tick(500);
    assert_eq!(sim.towers[0].target, None);
}

#[test]
fn stale_target_drops_the_shot_but_resets_the_cooldown() {
    let mut sim = quiet_sim(6);
    sim.place_tower(0, 0);
    assert!(sim.spawn_enemy(1, 10));
    // a reference to an enemy that never existed: the shot lands on nobody,
    // yet the fire timer still resets
    sim.towers[0].target = Some(77);
    sim.towers[0].fire_elapsed = 600;
    sim.combat_system(500);
    assert_eq!(sim.towers[0].fire_elapsed, 0);
    assert_eq!(sim.enemies[0].health, 10);
}

#[test]
fn spawn_timer_keeps_its_overshoot() {
    let maze = Maze::generate(5, 5, 8);
    let mut sim = Simulation::new(maze);
    sim.start();
    sim.tick(2500); // one spawn period plus half a second
    assert_eq!(sim.enemies.len(), 1);
    assert_eq!(sim.spawn_elapsed, 500);
}

#[test]
fn game_over_is_entered_once_and_is_terminal() {
    let mut sim = quiet_sim(9);
    sim.nexus_health = 0;
    sim.tick(100);
    assert_eq!(sim.state, GameState::GameOver);
    sim.tick(100);
    assert_eq!(sim.state, GameState::GameOver);
    // further health changes do not leave the terminal state
    sim.nexus_health = 50;
    sim.tick(100);
    assert_eq!(sim.state, GameState::GameOver);
    assert_eq!(sim.nexus_health, 50, "a game-over tick is a no-op");
}

#[test]
fn menu_state_does_not_simulate() {
    let maze = Maze::generate(5, 5, 1);
    let mut sim = Simulation::new(maze);
    sim.tick(5000);
    assert_eq!(sim.state, GameState::MainMenu);
    assert_eq!(sim.enemies.len(), 0);
    assert_eq!(sim.nexus_health, NEXUS_START_HEALTH);
}

#[test]
fn tile_grid_is_wall_or_floor_only() {
    let m = Maze::generate(7, 5, 99);
    for y in 0..m.height {
        for x in 0..m.width {
            let t = m.tile_at(x, y);
            assert!(t == Tile::Wall || t == Tile::Floor);
        }
    }
}
