use chroma_maze::maze::{carve_tiles, Maze, Tile};
use chroma_maze::path::find_path;
use chroma_maze::rng::Rng;

#[test]
fn rng_is_deterministic() {
    let mut a = Rng::new(12345);
    let mut b = Rng::new(12345);
    assert_eq!(a.next_u64(), b.next_u64());
    assert_eq!(a.next_u64(), b.next_u64());
    assert_eq!(a.pick(7), b.pick(7));
    assert!(a.pick(7) < 7);
}

#[test]
fn generated_maze_has_expected_shape() {
    let m = Maze::generate(15, 11, 42);
    assert_eq!(m.width, 15);
    assert_eq!(m.height, 11);
    assert_eq!(m.entrance, (1, 1));
    assert_eq!(m.nexus_pos, (7, 5));
    assert_eq!(m.tiles.len(), 15 * 11);
    assert_eq!(m.tile_at(1, 1), Tile::Floor);
    assert_eq!(m.tile_at(7, 5), Tile::Floor);
    assert_eq!(m.tile_at(0, 0), Tile::Wall);
}

#[test]
fn same_seed_gives_identical_tile_grid() {
    let a = Maze::generate(15, 11, 7);
    let b = Maze::generate(15, 11, 7);
    assert_eq!(a.tiles, b.tiles);
    let c = Maze::generate(31, 21, 999);
    let d = Maze::generate(31, 21, 999);
    assert_eq!(c.tiles, d.tiles);
}

#[test]
fn every_floor_cell_is_reachable_from_entrance() {
    // connectivity: every floor cell other than (possibly) the forced nexus
    // is reachable from the entrance
    for seed in [1u64, 2, 3] {
        let m = Maze::generate(9, 9, seed);
        for y in 0..m.height {
            for x in 0..m.width {
                if m.tile_at(x, y) == Tile::Floor && (x, y) != m.nexus_pos {
                    let p = find_path(&m, m.entrance, (x, y));
                    assert!(p.is_some(), "floor cell ({x},{y}) unreachable");
                } else if m.tile_at(x, y) == Tile::Wall {
                    assert!(find_path(&m, m.entrance, (x, y)).is_none());
                }
            }
        }
    }
}

#[test]
fn carving_floors_exactly_two_tiles_per_step() {
    // spanning-tree accounting: floors == 2 * steps + 1 and carved lattice
    // cells == steps + 1
    let mut rng = Rng::new(77);
    let (tiles, steps) = carve_tiles(13, 9, &mut rng);
    let floors = tiles.iter().filter(|t| **t == Tile::Floor).count();
    assert_eq!(floors, 2 * steps + 1);
    let mut lattice_floors = 0;
    for y in 0..9usize {
        for x in 0..13usize {
            if x % 2 == 1 && y % 2 == 1 && tiles[y * 13 + x] == Tile::Floor {
                lattice_floors += 1;
            }
        }
    }
    assert_eq!(lattice_floors, steps + 1);
    // on a full odd-sized grid the backtracker visits the whole lattice
    assert_eq!(lattice_floors, 6 * 4);
}

#[test]
fn path_from_entrance_to_nexus_is_valid_and_shortest() {
    for seed in [0u64, 5, 11, 300] {
        let m = Maze::generate(5, 5, seed);
        assert_eq!(m.nexus_pos, (2, 2));
        let p = find_path(&m, m.entrance, m.nexus_pos).expect("nexus unreachable on a 5x5 maze");
        assert_eq!(p[0], m.entrance);
        assert_eq!(*p.last().unwrap(), m.nexus_pos);
        for w in p.windows(2) {
            let (a, b) = (w[0], w[1]);
            let dx = a.0.abs_diff(b.0);
            let dy = a.1.abs_diff(b.1);
            assert_eq!(dx + dy, 1, "consecutive route cells must be 4-adjacent");
            assert_eq!(m.tile_at(b.0, b.1), Tile::Floor);
        }
        assert_eq!(m.tile_at(p[0].0, p[0].1), Tile::Floor);
        // on a 5x5 maze at least one cell next to the center is always
        // carved, so the shortest route has exactly three cells
        assert_eq!(p.len(), 3);
    }
}

#[test]
fn path_to_same_cell_is_a_single_waypoint() {
    let m = Maze::generate(7, 7, 4);
    let p = find_path(&m, m.entrance, m.entrance).unwrap();
    assert_eq!(p, vec![(1, 1)]);
}

#[test]
fn degenerate_maze_entrance_equals_nexus() {
    let m = Maze::generate(3, 3, 123);
    assert_eq!(m.entrance, (1, 1));
    assert_eq!(m.nexus_pos, (1, 1));
    let p = find_path(&m, m.entrance, m.nexus_pos).unwrap();
    assert_eq!(p, vec![(1, 1)]);
}
