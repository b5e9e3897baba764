use dungeon_core::bsp::BSPRoomMapGenerator;
use dungeon_core::builder::{MapBuilder, MapGenerator, StageError, StageKind};
use dungeon_core::drunkards::DrunkardsWalkMapGenerator;
use dungeon_core::generators::{
    FillRoomGenerator, RandomFreeSpaceSpawn, ReplaceVisibleWallsWithBreakableMapGenerator,
    SymmetricalMapGenerator,
};
use dungeon_core::grid::{GameMap, MapError};
use dungeon_core::rng::GameRNG;
use dungeon_core::tile::GameTile;

fn tile(m: &GameMap, x: usize, y: usize) -> GameTile {
    m.tiles[m.xy_idx(x, y)]
}

#[test]
fn fill_sets_every_cell_and_takes_one_snapshot() {
    let mut rng = GameRNG::new();
    let g = FillRoomGenerator { tile: GameTile::UnbreakableWall };
    let m = g.generate_map(GameMap::new(7, 5).unwrap(), &mut rng);
    assert!(m.tiles.iter().all(|t| *t == GameTile::UnbreakableWall));
    assert_eq!(m.history.len(), 1);
    assert_eq!(m.history[0], m.tiles);
    assert!(g.get_player_spawn(&m, &mut rng).is_none());
}

fn striped(width: usize, height: usize) -> GameMap {
    let mut m = GameMap::new(width, height).unwrap();
    for x in 0..width {
        for y in 0..height {
            let t = if (x * 7 + y * 3) % 4 == 0 { GameTile::Wall } else { GameTile::Floor };
            m.set_tile(x, y, t);
        }
    }
    m
}

#[test]
fn mirror_copies_right_half_onto_left_half() {
    let mut rng = GameRNG::new();
    let g = SymmetricalMapGenerator { horizontal_symmetry: true, vertical_symmetry: false };
    let before = striped(5, 4);
    let m = g.generate_map(before.clone(), &mut rng);
    for y in 0..4 {
        assert_eq!(tile(&m, 0, y), tile(&before, 3, y));
        assert_eq!(tile(&m, 1, y), tile(&before, 2, y));
        for x in 2..5 {
            assert_eq!(tile(&m, x, y), tile(&before, x, y));
        }
    }
    assert_eq!(m.history.len(), 1);
}

#[test]
fn mirror_is_idempotent() {
    let mut rng = GameRNG::new();
    let g = SymmetricalMapGenerator { horizontal_symmetry: true, vertical_symmetry: true };
    let once = g.generate_map(striped(9, 6), &mut rng);
    assert_eq!(once.history.len(), 2);
    let twice = g.generate_map(once.clone(), &mut rng);
    assert_eq!(twice.tiles, once.tiles);
}

#[test]
fn walls_next_to_floor_become_breakable() {
    let mut rng = GameRNG::new();
    let mut m = GameMap::new(5, 5).unwrap();
    m.fill(GameTile::UnbreakableWall);
    m.set_tile(2, 2, GameTile::Floor);
    let g = ReplaceVisibleWallsWithBreakableMapGenerator {};
    let r = g.generate_map(m, &mut rng);
    for x in 0..5 {
        for y in 0..5 {
            let expected = if x == 2 && y == 2 {
                GameTile::Floor
            } else if (1..=3).contains(&x) && (1..=3).contains(&y) {
                GameTile::Wall
            } else {
                GameTile::UnbreakableWall
            };
            assert_eq!(tile(&r, x, y), expected);
        }
    }
    assert_eq!(r.history.len(), 1);
}

#[test]
fn random_spawn_lands_on_floor() {
    let mut rng = GameRNG::with_seed(3);
    let mut m = GameMap::new(6, 6).unwrap();
    m.fill(GameTile::Wall);
    m.set_tile(4, 1, GameTile::Floor);
    let g = RandomFreeSpaceSpawn {};
    let p = g.get_player_spawn(&m, &mut rng).unwrap().unwrap();
    assert_eq!((p.x, p.y), (4, 1));
    let same = g.generate_map(m.clone(), &mut rng);
    assert_eq!(same.tiles, m.tiles);
}

#[test]
fn random_spawn_without_floor_fails() {
    let mut rng = GameRNG::new();
    let mut m = GameMap::new(4, 4).unwrap();
    m.fill(GameTile::Wall);
    let g = RandomFreeSpaceSpawn {};
    assert_eq!(g.get_player_spawn(&m, &mut rng), Err(MapError::NoCandidateTiles));
}

fn floors(t: &[GameTile]) -> usize {
    t.iter().filter(|t| **t == GameTile::Floor).count()
}

#[test]
fn drunkards_floor_count_never_decreases() {
    let mut rng = GameRNG::new();
    let mut m = GameMap::new(20, 15).unwrap();
    m.fill(GameTile::Wall);
    let g = DrunkardsWalkMapGenerator { target_num_drunkards: 6, drunkard_lifetime: 40, start_tile: GameTile::Wall };
    let r = g.generate_map(m, &mut rng).unwrap();
    assert_eq!(r.history.len(), 12);
    let mut last = 0;
    for snap in &r.history {
        let n = floors(snap);
        assert!(n >= last);
        last = n;
    }
    assert!(floors(&r.tiles) >= last);
    assert!(floors(&r.tiles) >= 6);
    assert!(r.tiles.iter().all(|t| *t == GameTile::Floor || *t == GameTile::Wall));
}

#[test]
fn drunkards_without_start_tiles_fail() {
    let mut rng = GameRNG::new();
    let m = GameMap::new(8, 8).unwrap();
    let g = DrunkardsWalkMapGenerator { target_num_drunkards: 1, drunkard_lifetime: 5, start_tile: GameTile::Wall };
    assert_eq!(g.generate_map(m, &mut rng).unwrap_err(), MapError::NoCandidateTiles);
}

#[test]
fn drunkards_with_no_walkers_change_nothing() {
    let mut rng = GameRNG::new();
    let m = GameMap::new(8, 8).unwrap();
    let g = DrunkardsWalkMapGenerator { target_num_drunkards: 0, drunkard_lifetime: 5, start_tile: GameTile::Wall };
    let r = g.generate_map(m.clone(), &mut rng).unwrap();
    assert_eq!(r.tiles, m.tiles);
    assert!(r.history.is_empty());
}

fn connected_4(m: &GameMap, a: (usize, usize), b: (usize, usize)) -> bool {
    let mut seen = vec![false; m.width * m.height];
    let mut stack = vec![a];
    while let Some((x, y)) = stack.pop() {
        let i = m.xy_idx(x, y);
        if seen[i] || m.tiles[i] != GameTile::Floor {
            continue;
        }
        seen[i] = true;
        if (x, y) == b {
            return true;
        }
        if x > 0 { stack.push((x - 1, y)); }
        if y > 0 { stack.push((x, y - 1)); }
        if x + 1 < m.width { stack.push((x + 1, y)); }
        if y + 1 < m.height { stack.push((x, y + 1)); }
    }
    false
}

#[test]
fn bsp_rooms_stay_inside_and_are_joined() {
    for seed in 0..8u64 {
        let mut rng = GameRNG::with_seed(seed);
        let mut m = GameMap::new(40, 30).unwrap();
        m.fill(GameTile::UnbreakableWall);
        let g = BSPRoomMapGenerator { depth: 4 };
        let (r, rooms) = g.generate_rooms(m, &mut rng);
        assert!(!rooms.is_empty() && rooms.len() <= 16);
        for room in &rooms {
            assert!(room.width >= 1 && room.height >= 1);
            assert!(room.x >= 1 && room.y >= 1);
            assert!(room.x + room.width <= 39 && room.y + room.height <= 29);
            for (x, y) in room.all_squares() {
                assert_eq!(tile(&r, x, y), GameTile::Floor);
            }
        }
        for i in 1..rooms.len() {
            assert!(connected_4(&r, (rooms[i - 1].x, rooms[i - 1].y), (rooms[i].x, rooms[i].y)));
        }
        assert_eq!(r.history.len(), 2 * rooms.len() - 1);
    }
}

#[test]
fn bsp_on_a_grid_without_interior_does_nothing() {
    let mut rng = GameRNG::new();
    let m = GameMap::new(2, 9).unwrap();
    let (r, rooms) = BSPRoomMapGenerator { depth: 4 }.generate_rooms(m.clone(), &mut rng);
    assert!(rooms.is_empty());
    assert_eq!(r.tiles, m.tiles);
}

fn standard_pipeline(seed: u64) -> (Vec<GameTile>, (i32, i32), usize) {
    let mut rng = GameRNG::with_seed(seed);
    let mut b = MapBuilder::new(20, 20).unwrap();
    b.with_generator(&FillRoomGenerator::new(GameTile::UnbreakableWall), &mut rng).unwrap();
    b.with_generator(&BSPRoomMapGenerator::with_depth(2), &mut rng).unwrap();
    b.with_generator(&ReplaceVisibleWallsWithBreakableMapGenerator::new(), &mut rng).unwrap();
    b.with_generator(&RandomFreeSpaceSpawn::new(), &mut rng).unwrap();
    let m = b.get_map();
    let p = b.get_spawn_position();
    assert!(m.history.is_empty());
    assert_eq!(m.tiles[m.xy_idx(p.x as usize, p.y as usize)], GameTile::Floor);
    (m.tiles, (p.x, p.y), b.get_history().len())
}

#[test]
fn standard_pipeline_is_deterministic() {
    let a = standard_pipeline(10);
    let b = standard_pipeline(10);
    assert_eq!(a, b);
    assert!(a.2 >= 3);
}

#[test]
fn builder_collects_stage_snapshots_and_spawn() {
    let mut rng = GameRNG::new();
    let mut b = MapBuilder::new(10, 8).unwrap();
    assert_eq!((b.get_spawn_position().x, b.get_spawn_position().y), (0, 0));
    b.with_generator(&FillRoomGenerator::new(GameTile::Wall), &mut rng).unwrap();
    b.with_generator(&SymmetricalMapGenerator::new(true, true), &mut rng).unwrap();
    assert_eq!(b.get_history().len(), 3);
    assert_eq!(
        b.with_generator(&RandomFreeSpaceSpawn::new(), &mut rng),
        Err(StageError { stage: StageKind::RandomSpawn, error: MapError::NoCandidateTiles })
    );
    let mut b = MapBuilder::new(10, 8).unwrap();
    b.with_generator(&FillRoomGenerator::new(GameTile::Wall), &mut rng).unwrap();
    let walk = DrunkardsWalkMapGenerator::new(3, 10, GameTile::Wall);
    b.with_generator(&walk, &mut rng).unwrap();
    assert_eq!(b.get_history().len(), 7);
    b.with_generator(&RandomFreeSpaceSpawn::new(), &mut rng).unwrap();
    let p = b.get_spawn_position();
    let m = b.get_map();
    assert_eq!(m.tiles[m.xy_idx(p.x as usize, p.y as usize)], GameTile::Floor);
    assert!(matches!(MapBuilder::new(0, 3), Err(MapError::InvalidDimensions)));
    let _ = MapGenerator::Fill(FillRoomGenerator { tile: GameTile::Floor });
}

#[test]
fn walk_floors_start_and_entered_cells_only() {
    let mut m = GameMap::new(4, 3).unwrap();
    m.fill(GameTile::Wall);
    // east, east, east (off the grid: skipped), north, west
    dungeon_core::drunkards::walk(&mut m, (1, 1), &vec![1, 1, 1, 0, 3]);
    let floors: Vec<(usize, usize)> = m.get_tile_pos_by_type(GameTile::Floor);
    assert_eq!(floors, vec![(1, 1), (2, 1), (2, 2), (3, 1), (3, 2)]);
}

#[test]
fn bsp_keeps_outer_ring_and_rooms_apart() {
    for seed in 0..6u64 {
        let mut rng = GameRNG::with_seed(seed);
        let mut m = GameMap::new(30, 24).unwrap();
        m.fill(GameTile::UnbreakableWall);
        let (r, rooms) = BSPRoomMapGenerator { depth: 4 }.generate_rooms(m, &mut rng);
        for x in 0..30 {
            for y in 0..24 {
                if x == 0 || y == 0 || x == 29 || y == 23 {
                    assert_eq!(tile(&r, x, y), GameTile::UnbreakableWall);
                }
            }
        }
        for i in 0..rooms.len() {
            for j in i + 1..rooms.len() {
                let (a, b) = (&rooms[i], &rooms[j]);
                assert!(a.x + a.width <= b.x || b.x + b.width <= a.x || a.y + a.height <= b.y || b.y + b.height <= a.y);
            }
        }
        assert_eq!(*r.history.last().unwrap(), r.tiles);
    }
}

#[test]
fn drunkards_change_at_most_walkers_times_lifetime_cells() {
    let mut rng = GameRNG::with_seed(7);
    let mut m = GameMap::new(30, 30).unwrap();
    m.fill(GameTile::Wall);
    let g = DrunkardsWalkMapGenerator { target_num_drunkards: 3, drunkard_lifetime: 9, start_tile: GameTile::Wall };
    let r = g.generate_map(m.clone(), &mut rng).unwrap();
    let changed = r.tiles.iter().zip(m.tiles.iter()).filter(|(a, b)| a != b).count();
    assert!(changed >= 1 && changed <= 3 * 10);
    assert_eq!(*r.history.last().unwrap(), r.tiles);
}
