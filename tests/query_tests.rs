use dungeon_core::geometry::Position;
use dungeon_core::grid::GameMap;
use dungeon_core::pathfinding::{astar_next_step, monster_step};
use dungeon_core::rng::GameRNG;
use dungeon_core::tile::GameTile;
use dungeon_core::viewshed::{compute_visible, Viewshed};

fn pos(x: i32, y: i32) -> Position {
    Position { x, y }
}

fn all_blocking_but(m: &mut GameMap, free: &[(i32, i32)]) {
    let mut blockers = Vec::new();
    for x in 0..m.width as i32 {
        for y in 0..m.height as i32 {
            if !free.contains(&(x, y)) {
                blockers.push(pos(x, y));
            }
        }
    }
    m.set_blockers(&blockers);
}

#[test]
fn path_to_self_is_one_node() {
    let m = GameMap::new(5, 5).unwrap();
    let (path, cost) = astar_next_step(&m, pos(2, 3), pos(2, 3)).unwrap();
    assert_eq!(path, vec![pos(2, 3)]);
    assert_eq!(cost, 0);
}

#[test]
fn straight_corridor_path() {
    let mut m = GameMap::new(10, 5).unwrap();
    let corridor: Vec<(i32, i32)> = (2..8).map(|x| (x, 2)).collect();
    all_blocking_but(&mut m, &corridor);
    let (path, cost) = astar_next_step(&m, pos(2, 2), pos(7, 2)).unwrap();
    assert_eq!(path.len(), 6);
    assert_eq!(cost, 5);
    assert_eq!(path, (2..8).map(|x| pos(x, 2)).collect::<Vec<_>>());
}

#[test]
fn diagonal_moves_cost_one() {
    let m = GameMap::new(6, 6).unwrap();
    let (path, cost) = astar_next_step(&m, pos(0, 0), pos(3, 3)).unwrap();
    assert_eq!(cost, path.len() - 1);
    assert_eq!(path[0], pos(0, 0));
    assert_eq!(*path.last().unwrap(), pos(3, 3));
    for w in path.windows(2) {
        assert!((w[0].x - w[1].x).abs() <= 1 && (w[0].y - w[1].y).abs() <= 1);
    }
}

#[test]
fn enclosed_target_has_no_path() {
    let mut m = GameMap::new(7, 7).unwrap();
    let mut blockers = Vec::new();
    for x in 3..6 {
        for y in 3..6 {
            if (x, y) != (4, 4) {
                blockers.push(pos(x, y));
            }
        }
    }
    m.set_blockers(&blockers);
    assert!(astar_next_step(&m, pos(0, 0), pos(4, 4)).is_none());
}

#[test]
fn path_may_end_on_an_occupied_cell() {
    let mut m = GameMap::new(5, 1).unwrap();
    m.set_blockers(&vec![pos(4, 0)]);
    let (path, cost) = astar_next_step(&m, pos(0, 0), pos(4, 0)).unwrap();
    assert_eq!(cost, 4);
    assert_eq!(path.len(), 5);
}

#[test]
fn zero_distance_sees_only_origin() {
    let mut m = GameMap::new(9, 9).unwrap();
    let v = compute_visible(&mut m, pos(4, 4), 0);
    assert_eq!(v, vec![pos(4, 4)]);
    assert!(m.viewed_tiles[m.xy_idx(4, 4)]);
    assert_eq!(m.viewed_tiles.iter().filter(|s| **s).count(), 1);
}

#[test]
fn sight_stops_at_first_wall() {
    let mut m = GameMap::new(12, 3).unwrap();
    m.set_tile(4, 1, GameTile::Wall);
    let v = compute_visible(&mut m, pos(1, 1), 10);
    assert!(v.contains(&pos(1, 1)));
    assert!(v.contains(&pos(3, 1)));
    assert!(v.contains(&pos(4, 1)));
    for x in 5..12 {
        assert!(!v.contains(&pos(x, 1)));
    }
    let mut sorted = v.clone();
    sorted.sort_by_key(|p| (p.x, p.y));
    sorted.dedup();
    assert_eq!(sorted.len(), v.len());
}

#[test]
fn open_room_is_seen_within_range() {
    let mut m = GameMap::new(11, 11).unwrap();
    let v = compute_visible(&mut m, pos(5, 5), 3);
    assert!(v.contains(&pos(7, 5)));
    assert!(v.contains(&pos(5, 3)));
    assert!(!v.contains(&pos(9, 5)));
    assert!(v.iter().all(|p| (p.x - 5).abs() <= 3 && (p.y - 5).abs() <= 3));
    let v2 = compute_visible(&mut m, pos(1, 1), 1);
    assert_eq!(v2, vec![pos(1, 1)]);
    assert!(m.viewed_tiles[m.xy_idx(7, 5)]);
}

#[test]
fn rng_ranges() {
    let mut rng = GameRNG::new();
    for _ in 0..200 {
        let a = rng.rand_range(-3..4);
        assert!((-3..4).contains(&a));
        let b = rng.rand_range_incl(5, 6);
        assert!(b == 5 || b == 6);
        assert!(rng.rand_index(7) < 7);
    }
    assert_eq!(rng.rand_range(9..10), 9);
    let mut r1 = GameRNG::with_seed(42);
    let mut r2 = GameRNG::with_seed(42);
    assert_eq!(r1.rand_i32(), r2.rand_i32());
    assert_eq!(r1.rand_range(0..1000), r2.rand_range(0..1000));
}

#[test]
fn monster_steps_toward_target() {
    let m = GameMap::new(10, 1).unwrap();
    assert_eq!(monster_step(&m, pos(0, 0), pos(5, 0)), pos(1, 0));
    assert_eq!(monster_step(&m, pos(3, 0), pos(3, 0)), pos(3, 0));
    let mut walled = GameMap::new(10, 1).unwrap();
    walled.set_blockers(&vec![pos(4, 0)]);
    assert_eq!(monster_step(&walled, pos(0, 0), pos(8, 0)), pos(0, 0));
    assert_eq!(monster_step(&walled, pos(3, 0), pos(4, 0)), pos(3, 0));
}

#[test]
fn viewshed_update_clears_dirty_and_reveals() {
    let mut m = GameMap::new(7, 7).unwrap();
    let mut v = Viewshed { dirty: true, distance: 2, visible_tiles: Vec::new() };
    v.update(&mut m, pos(3, 3));
    assert!(!v.dirty);
    assert!(v.visible_tiles.contains(&pos(3, 3)));
    assert!(v.visible_tiles.contains(&pos(4, 3)));
    assert!(!v.visible_tiles.contains(&pos(6, 3)));
    for p in &v.visible_tiles {
        assert!(m.viewed_tiles[m.xy_idx(p.x as usize, p.y as usize)]);
    }
    let seen_before = m.viewed_tiles.iter().filter(|s| **s).count();
    v.update(&mut m, pos(0, 0));
    assert!(m.viewed_tiles.iter().filter(|s| **s).count() >= seen_before);
    assert!(m.viewed_tiles[m.xy_idx(3, 3)]);
}

#[test]
fn manhattan_distance_and_validity() {
    let m = GameMap::new(4, 4).unwrap();
    assert_eq!(pos(1, 2).distance(&pos(4, -2)), 7);
    assert_eq!(pos(0, 0).distance(&pos(0, 0)), 0);
    assert_eq!(pos(i32::MIN, 0).distance(&pos(i32::MAX, 0)), 4294967295);
    assert!(pos(3, 3).is_valid(&m));
    assert!(!pos(4, 0).is_valid(&m));
    assert!(!pos(0, -1).is_valid(&m));
}

#[test]
fn successors_skip_blocked_cells_but_not_endpoints() {
    let mut m = GameMap::new(3, 3).unwrap();
    m.set_blockers(&vec![pos(1, 2), pos(2, 1)]);
    let s = pos(1, 1).successors(&m, &pos(1, 1), &pos(2, 1));
    let cells: Vec<Position> = s.iter().map(|p| p.0).collect();
    assert_eq!(cells, vec![pos(1, 0), pos(2, 1), pos(0, 1), pos(2, 2), pos(0, 2), pos(2, 0), pos(0, 0)]);
    assert!(s.iter().all(|p| p.1 == 1));
    let corner = pos(0, 0).successors(&m, &pos(0, 0), &pos(2, 2));
    assert_eq!(corner.len(), 3);
}

#[test]
fn diagonal_path_on_open_grid_is_shortest() {
    let m = GameMap::new(3, 3).unwrap();
    let (path, cost) = astar_next_step(&m, pos(0, 0), pos(2, 2)).unwrap();
    assert_eq!(path, vec![pos(0, 0), pos(1, 1), pos(2, 2)]);
    assert_eq!(cost, 2);
    assert_eq!(pos(0, 0).step_distance(&pos(2, -5)), 5);
}

#[test]
fn straight_corridor_path_leftward() {
    let mut m = GameMap::new(10, 5).unwrap();
    let corridor: Vec<(i32, i32)> = (1..6).map(|x| (x, 3)).collect();
    all_blocking_but(&mut m, &corridor);
    let (path, cost) = astar_next_step(&m, pos(5, 3), pos(1, 3)).unwrap();
    assert_eq!(cost, 4);
    assert_eq!(path, (1..6).rev().map(|x| pos(x, 3)).collect::<Vec<_>>());
}
