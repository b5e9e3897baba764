//! The terrain kinds of a grid cell and their fixed properties.
use vstd::prelude::*;

verus! {

/// The categorical terrain type of one grid cell.
#[derive(Clone, Copy, Debug, PartialEq, Eq, Structural)]
pub enum GameTile {
    Floor,
    Wall,
    UnbreakableWall,
    DownStairs,
    UpStairs,
}

/// Walls block movement; every other kind can be walked on.
pub open spec fn tile_blocks(t: GameTile) -> bool {
    t == GameTile::Wall || t == GameTile::UnbreakableWall
}

/// Walls stop sight; every other kind lets it through.
pub open spec fn tile_opaque(t: GameTile) -> bool {
    t == GameTile::Wall || t == GameTile::UnbreakableWall
}

/// The glyph code a renderer shows for each kind.
pub open spec fn tile_glyph(t: GameTile) -> u16 {
    match t {
        GameTile::Floor => 46,
        GameTile::Wall => 35,
        GameTile::UnbreakableWall => 178,
        GameTile::DownStairs => 31,
        GameTile::UpStairs => 30,
    }
}

impl GameTile {
    /// The glyph code of this kind: `.` for floor, `#` for a wall, a shaded
    /// block for an unbreakable wall and arrow glyphs for the stairs.
    pub fn get_char_rep(&self) -> (r: u16)
        ensures
            r == tile_glyph(*self),
    {
        match self {
            GameTile::Floor => '.' as u16,
            GameTile::Wall => '#' as u16,
            GameTile::UnbreakableWall => 178u16,
            GameTile::DownStairs => 31u16,
            GameTile::UpStairs => 30u16,
        }
    }

    /// Whether this kind stops movement.
    pub fn is_blocker(&self) -> (r: bool)
        ensures
            r == tile_blocks(*self),
    {
        match self {
            GameTile::Floor => false,
            GameTile::Wall => true,
            GameTile::UnbreakableWall => true,
            GameTile::DownStairs => false,
            GameTile::UpStairs => false,
        }
    }

    /// Whether this kind stops sight.
    pub fn is_opaque(&self) -> (r: bool)
        ensures
            r == tile_opaque(*self),
    {
        match self {
            GameTile::Floor => false,
            GameTile::Wall => true,
            GameTile::UnbreakableWall => true,
            GameTile::DownStairs => false,
            GameTile::UpStairs => false,
        }
    }
}

} // verus!
