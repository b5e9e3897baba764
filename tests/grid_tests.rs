use dungeon_core::geometry::{Point, Position, Rectangle};
use dungeon_core::grid::{GameMap, MapError};
use dungeon_core::tile::GameTile;

#[test]
fn tile_glyphs_and_properties() {
    assert_eq!(GameTile::Floor.get_char_rep(), '.' as u16);
    assert_eq!(GameTile::Wall.get_char_rep(), '#' as u16);
    assert_eq!(GameTile::UnbreakableWall.get_char_rep(), 178);
    assert_eq!(GameTile::DownStairs.get_char_rep(), 31);
    assert_eq!(GameTile::UpStairs.get_char_rep(), 30);
    assert!(GameTile::Wall.is_blocker() && GameTile::Wall.is_opaque());
    assert!(GameTile::UnbreakableWall.is_blocker() && GameTile::UnbreakableWall.is_opaque());
    assert!(!GameTile::Floor.is_blocker() && !GameTile::Floor.is_opaque());
    assert!(!GameTile::DownStairs.is_blocker() && !GameTile::UpStairs.is_opaque());
}

#[test]
fn new_grid_is_all_floor() {
    let m = GameMap::new(4, 3).unwrap();
    assert_eq!(m.tiles.len(), 12);
    assert!(m.tiles.iter().all(|t| *t == GameTile::Floor));
    assert!(m.viewed_tiles.iter().all(|v| !*v));
    assert!(m.blocking_tiles.iter().all(|b| !*b));
    assert!(m.history.is_empty());
}

#[test]
fn new_grid_rejects_zero_dimensions() {
    assert_eq!(GameMap::new(0, 5).unwrap_err(), MapError::InvalidDimensions);
    assert_eq!(GameMap::new(5, 0).unwrap_err(), MapError::InvalidDimensions);
    assert_eq!(GameMap::new(0x8000_0000, 1).unwrap_err(), MapError::InvalidDimensions);
}

#[test]
fn index_is_row_major() {
    let m = GameMap::new(5, 4).unwrap();
    assert_eq!(m.xy_idx(0, 0), 0);
    assert_eq!(m.xy_idx(3, 2), 13);
    assert_eq!(m.xy_idx_pos(&Position { x: 4, y: 3 }), 19);
}

#[test]
fn bounds_and_queries() {
    let mut m = GameMap::new(3, 2).unwrap();
    assert!(m.is_within_bounds(0, 0));
    assert!(m.is_within_bounds(2, 1));
    assert!(!m.is_within_bounds(3, 0));
    assert!(!m.is_within_bounds(-1, 0));
    assert!(!m.is_within_bounds(0, 2));
    m.set_tile(1, 1, GameTile::Wall);
    assert!(m.is_opaque(1, 1));
    assert!(!m.is_opaque(0, 1));
    assert!(!m.is_blocker(1, 1));
    m.set_blockers(&vec![Position { x: 2, y: 0 }, Position { x: 9, y: 9 }]);
    assert!(m.is_blocker(2, 0));
    assert!(!m.is_blocker(1, 1));
    assert_eq!(m.blocking_tiles.iter().filter(|b| **b).count(), 1);
}

#[test]
fn fill_snapshot_and_clear() {
    let mut m = GameMap::new(3, 3).unwrap();
    m.fill(GameTile::Wall);
    assert!(m.tiles.iter().all(|t| *t == GameTile::Wall));
    m.snapshot();
    m.set_tile(0, 0, GameTile::Floor);
    m.snapshot();
    assert_eq!(m.history.len(), 2);
    assert_eq!(m.history[0][0], GameTile::Wall);
    assert_eq!(m.history[1][0], GameTile::Floor);
    m.clear_history();
    assert!(m.history.is_empty());
    assert_eq!(m.tiles[0], GameTile::Floor);
}

#[test]
fn draw_square_paints_border_and_fill_and_clips() {
    let mut m = GameMap::new(6, 5).unwrap();
    m.draw_square(1, 1, 4, 3, GameTile::Floor, GameTile::Wall);
    let t = |m: &GameMap, x: usize, y: usize| m.tiles[m.xy_idx(x, y)];
    assert_eq!(t(&m, 1, 1), GameTile::Wall);
    assert_eq!(t(&m, 4, 3), GameTile::Wall);
    assert_eq!(t(&m, 2, 2), GameTile::Floor);
    assert_eq!(t(&m, 3, 2), GameTile::Floor);
    assert_eq!(t(&m, 0, 0), GameTile::Floor);
    assert_eq!(t(&m, 5, 4), GameTile::Floor);
    m.draw_square(4, 3, 5, 5, GameTile::DownStairs, GameTile::UpStairs);
    assert_eq!(t(&m, 4, 3), GameTile::UpStairs);
    assert_eq!(t(&m, 5, 4), GameTile::DownStairs);
}

#[test]
fn tiles_of_kind_in_column_order() {
    let mut m = GameMap::new(3, 3).unwrap();
    m.fill(GameTile::Wall);
    m.set_tile(2, 0, GameTile::Floor);
    m.set_tile(0, 2, GameTile::Floor);
    m.set_tile(0, 1, GameTile::Floor);
    assert_eq!(m.get_tile_pos_by_type(GameTile::Floor), vec![(0, 1), (0, 2), (2, 0)]);
    assert!(m.get_tile_pos_by_type(GameTile::UpStairs).is_empty());
}

#[test]
fn adjacency_in_listed_order() {
    let mut m = GameMap::new(3, 3).unwrap();
    m.set_tile(1, 0, GameTile::Wall);
    let adj = m.get_adjacent_tiles((0, 0));
    assert_eq!(adj, vec![(0, 1, GameTile::Floor), (1, 0, GameTile::Wall), (1, 1, GameTile::Floor)]);
    assert_eq!(m.get_adjacent_tiles((1, 1)).len(), 8);
    assert_eq!(m.get_adjacent_count_by_type((1, 1), GameTile::Wall), 1);
    assert_eq!(m.get_adjacent_count_by_type((1, 1), GameTile::Floor), 7);
    assert_eq!(m.get_adjacent_count_by_type((2, 2), GameTile::Wall), 0);
    assert!(m.get_adjacent_tiles((-5, -5)).is_empty());
}

#[test]
fn rectangle_cells_and_center() {
    let r = Rectangle { x: 2, y: 3, width: 2, height: 3 };
    assert_eq!(r.center(), (3, 4));
    assert_eq!(r.all_squares(), vec![(2, 3), (2, 4), (2, 5), (3, 3), (3, 4), (3, 5)]);
    assert!(Rectangle { x: 0, y: 0, width: 0, height: 4 }.all_squares().is_empty());
    let p = Point::new(-3, 7);
    assert_eq!((p.x, p.y), (-3, 7));
}
