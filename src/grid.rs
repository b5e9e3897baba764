//! The tile grid: dimensions, terrain, occupancy, what has been seen, and
//! the snapshots taken while a map is generated.
use vstd::prelude::*;

use crate::geometry::Position;
use crate::tile::{tile_opaque, GameTile};

verus! {

/// The largest width or height a grid may have: every coordinate fits in an `i32`.
pub const MAX_DIMENSION: usize = 0x7fff_ffff;

/// Why a grid could not be made or a generator stage could not run.
#[derive(Clone, Copy, Debug, PartialEq, Eq, Structural)]
pub enum MapError {
    /// A width or height of zero, or one too large to address.
    InvalidDimensions,
    /// A stage had to pick a cell of some kind and the grid held none.
    NoCandidateTiles,
}

/// The offset of cell `(x, y)` in a row-major array of rows `w` cells long.
pub open spec fn cell_index(w: int, x: int, y: int) -> int {
    w * y + x
}

pub proof fn lemma_cell_index_bounds(w: int, h: int, x: int, y: int)
    requires
        0 <= x < w,
        0 <= y < h,
    ensures
        0 <= cell_index(w, x, y) < w * h,
{
    assert(0 <= w * y + x < w * h) by (nonlinear_arith)
        requires
            0 <= x < w,
            0 <= y < h,
    ;
}

pub proof fn lemma_cell_index_injective(w: int, x1: int, y1: int, x2: int, y2: int)
    requires
        0 <= x1 < w,
        0 <= x2 < w,
        0 <= y1,
        0 <= y2,
        cell_index(w, x1, y1) == cell_index(w, x2, y2),
    ensures
        x1 == x2,
        y1 == y2,
{
    if y1 < y2 {
        assert(w * y1 + x1 < w * y2 + x2) by (nonlinear_arith)
            requires
                0 <= x1 < w,
                0 <= x2,
                y1 < y2,
        ;
    } else if y2 < y1 {
        assert(w * y2 + x2 < w * y1 + x1) by (nonlinear_arith)
            requires
                0 <= x2 < w,
                0 <= x1,
                y2 < y1,
        ;
    }
}

/// Some cell of `m` holds `t`.
pub open spec fn has_kind(m: GameMap, t: GameTile) -> bool {
    exists|x: int, y: int| m.in_bounds(x, y) && #[trigger] m.tile(x, y) == t
}

/// A list of tile arrays as tile sequences.
pub open spec fn snapshots_view(h: Seq<Vec<GameTile>>) -> Seq<Seq<GameTile>> {
    h.map_values(|v: Vec<GameTile>| v@)
}

/// Lexicographic order on cells: by column, then by row.
pub open spec fn cell_before(a: (usize, usize), b: (usize, usize)) -> bool {
    a.0 < b.0 || (a.0 == b.0 && a.1 < b.1)
}

/// What `draw_square` leaves at `(cx, cy)`: the border kind on the outer ring
/// of the rectangle, the fill kind inside it, the old tile elsewhere.
pub open spec fn square_tile(
    old_tile: GameTile,
    cx: int,
    cy: int,
    x: int,
    y: int,
    w: int,
    h: int,
    fill: GameTile,
    border: GameTile,
) -> GameTile {
    if x <= cx < x + w && y <= cy < y + h {
        if cx == x || cx == x + w - 1 || cy == y || cy == y + h - 1 {
            border
        } else {
            fill
        }
    } else {
        old_tile
    }
}

/// The eight neighbour offsets in the order they are listed: north, south,
/// east, west, then north-east, north-west, south-east, south-west.
pub open spec fn neighbor_offset(k: int) -> (int, int) {
    if k == 0 {
        (0, 1)
    } else if k == 1 {
        (0, -1)
    } else if k == 2 {
        (1, 0)
    } else if k == 3 {
        (-1, 0)
    } else if k == 4 {
        (1, 1)
    } else if k == 5 {
        (-1, 1)
    } else if k == 6 {
        (1, -1)
    } else {
        (-1, -1)
    }
}

/// How many entries of an adjacency list hold the kind `t`.
pub open spec fn count_kind(s: Seq<(usize, usize, GameTile)>, t: GameTile) -> nat
    decreases s.len(),
{
    if s.len() == 0 {
        0
    } else {
        count_kind(s.drop_last(), t) + if s.last().2 == t {
            1nat
        } else {
            0nat
        }
    }
}

fn neighbor_offset_exec(k: usize) -> (r: (i64, i64))
    requires
        k < 8,
    ensures
        r.0 == neighbor_offset(k as int).0,
        r.1 == neighbor_offset(k as int).1,
{
    if k == 0 {
        (0, 1)
    } else if k == 1 {
        (0, -1)
    } else if k == 2 {
        (1, 0)
    } else if k == 3 {
        (-1, 0)
    } else if k == 4 {
        (1, 1)
    } else if k == 5 {
        (-1, 1)
    } else if k == 6 {
        (1, -1)
    } else {
        (-1, -1)
    }
}

/// The map: a `width` by `height` grid of tiles stored row by row, with a
/// flag per cell for "something stands here and blocks movement", a flag per
/// cell for "an observer has seen this cell", and the tile arrays recorded by
/// `snapshot` during generation.
#[derive(Clone, Debug)]
pub struct GameMap {
    pub width: usize,
    pub height: usize,
    pub tiles: Vec<GameTile>,
    pub viewed_tiles: Vec<bool>,
    pub blocking_tiles: Vec<bool>,
    pub history: Vec<Vec<GameTile>>,
}

impl GameMap {
    /// The dimensions are usable and every per-cell array has one entry per cell.
    pub open spec fn wf(self) -> bool {
        &&& 1 <= self.width <= MAX_DIMENSION
        &&& 1 <= self.height <= MAX_DIMENSION
        &&& self.width * self.height <= usize::MAX
        &&& self.tiles@.len() == self.width * self.height
        &&& self.viewed_tiles@.len() == self.width * self.height
        &&& self.blocking_tiles@.len() == self.width * self.height
    }

    pub open spec fn in_bounds(self, x: int, y: int) -> bool {
        0 <= x < self.width && 0 <= y < self.height
    }

    pub open spec fn idx(self, x: int, y: int) -> int {
        cell_index(self.width as int, x, y)
    }

    /// The tile at `(x, y)`.
    pub open spec fn tile(self, x: int, y: int) -> GameTile {
        self.tiles@[self.idx(x, y)]
    }

    pub open spec fn blocked(self, x: int, y: int) -> bool {
        self.blocking_tiles@[self.idx(x, y)]
    }

    pub open spec fn seen(self, x: int, y: int) -> bool {
        self.viewed_tiles@[self.idx(x, y)]
    }

    /// The snapshots as tile sequences.
    pub open spec fn history_view(self) -> Seq<Seq<GameTile>> {
        snapshots_view(self.history@)
    }

    /// Same dimensions, occupancy and seen flags; tiles and history may differ.
    pub open spec fn same_frame(self, other: GameMap) -> bool {
        &&& self.width == other.width
        &&& self.height == other.height
        &&& self.viewed_tiles@ == other.viewed_tiles@
        &&& self.blocking_tiles@ == other.blocking_tiles@
    }

    /// Every cell holds `t`.
    pub open spec fn all_tiles(self, t: GameTile) -> bool {
        forall|x: int, y: int| self.in_bounds(x, y) ==> #[trigger] self.tile(x, y) == t
    }

    /// A grid of `width` by `height` floor cells, nothing blocking, nothing
    /// seen and no history. Fails with `InvalidDimensions` when a dimension is
    /// zero or too large to address.
    pub fn new(width: usize, height: usize) -> (r: Result<GameMap, MapError>)
        ensures
            r is Ok <==> (1 <= width <= MAX_DIMENSION && 1 <= height <= MAX_DIMENSION && width
                * height <= usize::MAX),
            r is Err ==> r == Err::<GameMap, MapError>(MapError::InvalidDimensions),
            r matches Ok(m) ==> {
                &&& m.wf()
                &&& m.width == width
                &&& m.height == height
                &&& m.all_tiles(GameTile::Floor)
                &&& forall|i: int| 0 <= i < m.tiles@.len() ==> #[trigger] m.tiles@[i] == GameTile::Floor
                &&& forall|i: int| 0 <= i < m.viewed_tiles@.len() ==> !#[trigger] m.viewed_tiles@[i]
                &&& forall|i: int| 0 <= i < m.blocking_tiles@.len() ==> !#[trigger] m.blocking_tiles@[i]
                &&& m.history@.len() == 0
            },
    {
        if width == 0 || height == 0 || width > MAX_DIMENSION || height > MAX_DIMENSION {
            return Err(MapError::InvalidDimensions);
        }
        let n = match width.checked_mul(height) {
            Some(n) => n,
            None => {
                return Err(MapError::InvalidDimensions);
            },
        };
        let m = GameMap {
            width,
            height,
            tiles: vec![GameTile::Floor; n],
            viewed_tiles: vec![false; n],
            blocking_tiles: vec![false; n],
            history: Vec::new(),
        };
        assert forall|x: int, y: int| m.in_bounds(x, y) implies #[trigger] m.tile(x, y)
            == GameTile::Floor by {
            lemma_cell_index_bounds(width as int, height as int, x, y);
        }
        Ok(m)
    }

    /// The array offset of `(x, y)`: `width * y + x`.
    pub fn xy_idx(&self, x: usize, y: usize) -> (r: usize)
        requires
            self.wf(),
            x < self.width,
            y < self.height,
        ensures
            r == self.idx(x as int, y as int),
            r < self.tiles@.len(),
    {
        proof {
            lemma_cell_index_bounds(self.width as int, self.height as int, x as int, y as int);
        }
        self.width * y + x
    }

    /// The array offset of a position inside the grid.
    pub fn xy_idx_pos(&self, pos: &Position) -> (r: usize)
        requires
            self.wf(),
            self.in_bounds(pos.x as int, pos.y as int),
        ensures
            r == self.idx(pos.x as int, pos.y as int),
            r < self.tiles@.len(),
    {
        self.xy_idx(pos.x as usize, pos.y as usize)
    }

    pub fn is_within_bounds(&self, x: i32, y: i32) -> (r: bool)
        ensures
            r == self.in_bounds(x as int, y as int),
    {
        x >= 0 && y >= 0 && (x as usize) < self.width && (y as usize) < self.height
    }

    /// Whether the tile at `(x, y)` stops sight.
    pub fn is_opaque(&self, x: i32, y: i32) -> (r: bool)
        requires
            self.wf(),
            self.in_bounds(x as int, y as int),
        ensures
            r == tile_opaque(self.tile(x as int, y as int)),
    {
        let i = self.xy_idx(x as usize, y as usize);
        self.tiles[i].is_opaque()
    }

    /// Whether something stands at `(x, y)` that blocks movement. This reads
    /// the occupancy flags, not the tile kind.
    pub fn is_blocker(&self, x: i32, y: i32) -> (r: bool)
        requires
            self.wf(),
            self.in_bounds(x as int, y as int),
        ensures
            r == self.blocked(x as int, y as int),
    {
        let i = self.xy_idx(x as usize, y as usize);
        self.blocking_tiles[i]
    }

    /// Sets the tile at `(x, y)` and leaves every other cell as it was.
    pub fn set_tile(&mut self, x: usize, y: usize, t: GameTile)
        requires
            old(self).wf(),
            x < old(self).width,
            y < old(self).height,
        ensures
            final(self).wf(),
            final(self).same_frame(*old(self)),
            final(self).history@ == old(self).history@,
            final(self).tile(x as int, y as int) == t,
            final(self).tiles@ == old(self).tiles@.update(old(self).idx(x as int, y as int), t),
            forall|cx: int, cy: int|
                #![trigger final(self).tile(cx, cy)]
                final(self).in_bounds(cx, cy) && (cx != x || cy != y) ==> final(self).tile(cx, cy)
                    == old(self).tile(cx, cy),
    {
        let i = self.xy_idx(x, y);
        self.tiles.set(i, t);
        proof {
            assert forall|cx: int, cy: int|
                #![trigger self.tile(cx, cy)]
                self.in_bounds(cx, cy) && (cx != x || cy != y) implies self.tile(cx, cy)
                == old(self).tile(cx, cy) by {
                lemma_cell_index_bounds(self.width as int, self.height as int, cx, cy);
                if self.idx(cx, cy) == i {
                    lemma_cell_index_injective(self.width as int, cx, cy, x as int, y as int);
                }
            }
        }
    }

    /// Sets every cell to `tile`.
    pub fn fill(&mut self, tile: GameTile)
        requires
            old(self).wf(),
        ensures
            final(self).wf(),
            final(self).same_frame(*old(self)),
            final(self).history@ == old(self).history@,
            final(self).all_tiles(tile),
    {
        let mut x: usize = 0;
        while x < self.width
            invariant
                self.wf(),
                self.same_frame(*old(self)),
                self.history@ == old(self).history@,
                x <= self.width,
                forall|cx: int, cy: int|
                    self.in_bounds(cx, cy) && cx < x ==> #[trigger] self.tile(cx, cy) == tile,
            decreases self.width - x,
        {
            let mut y: usize = 0;
            while y < self.height
                invariant
                    self.wf(),
                    self.same_frame(*old(self)),
                    self.history@ == old(self).history@,
                    x < self.width,
                    y <= self.height,
                    forall|cx: int, cy: int|
                        self.in_bounds(cx, cy) && (cx < x || (cx == x && cy < y)) ==> #[trigger] self.tile(
                            cx,
                            cy,
                        ) == tile,
                decreases self.height - y,
            {
                self.set_tile(x, y, tile);
                y = y + 1;
            }
            x = x + 1;
        }
    }

    /// Records a copy of the current tiles at the end of the history.
    pub fn snapshot(&mut self)
        ensures
            final(self).tiles@ == old(self).tiles@,
            forall|x: int, y: int| #[trigger] final(self).tile(x, y) == old(self).tile(x, y),
            final(self).same_frame(*old(self)),
            final(self).history_view() == old(self).history_view().push(old(self).tiles@),
    {
        let copy = self.tiles.clone();
        self.history.push(copy);
        assert(self.history_view() =~= old(self).history_view().push(old(self).tiles@));
    }

    /// Drops every recorded snapshot.
    pub fn clear_history(&mut self)
        ensures
            final(self).tiles@ == old(self).tiles@,
            forall|x: int, y: int| #[trigger] final(self).tile(x, y) == old(self).tile(x, y),
            final(self).same_frame(*old(self)),
            final(self).history@.len() == 0,
    {
        self.history.clear();
    }
    /// The in-bounds neighbours among the first `k` offsets, with their tiles.
    pub open spec fn adjacent_upto(self, x: int, y: int, k: nat) -> Seq<(usize, usize, GameTile)>
        decreases k,
    {
        if k == 0 {
            seq![]
        } else {
            let prev = self.adjacent_upto(x, y, (k - 1) as nat);
            let d = neighbor_offset(k - 1);
            if self.in_bounds(x + d.0, y + d.1) {
                prev.push(((x + d.0) as usize, (y + d.1) as usize, self.tile(x + d.0, y + d.1)))
            } else {
                prev
            }
        }
    }

    pub proof fn lemma_adjacent_upto_len(self, x: int, y: int, k: nat)
        ensures
            self.adjacent_upto(x, y, k).len() <= k,
        decreases k,
    {
        if k > 0 {
            self.lemma_adjacent_upto_len(x, y, (k - 1) as nat);
        }
    }

    /// The in-bounds 8-connected neighbours of `(x, y)` with their tiles.
    pub open spec fn adjacent(self, x: int, y: int) -> Seq<(usize, usize, GameTile)> {
        self.adjacent_upto(x, y, 8)
    }

    /// Paints a `width` by `height` rectangle whose top-left cell is
    /// `(x, y)`: its outer ring with `border_tile`, the rest with `fill_tile`.
    /// Cells that fall outside the grid are skipped.
    pub fn draw_square(
        &mut self,
        x: usize,
        y: usize,
        width: usize,
        height: usize,
        fill_tile: GameTile,
        border_tile: GameTile,
    )
        requires
            old(self).wf(),
            x + width <= usize::MAX,
            y + height <= usize::MAX,
        ensures
            final(self).wf(),
            final(self).same_frame(*old(self)),
            final(self).history@ == old(self).history@,
            forall|cx: int, cy: int|
                #![trigger final(self).tile(cx, cy)]
                final(self).in_bounds(cx, cy) ==> final(self).tile(cx, cy) == square_tile(
                    old(self).tile(cx, cy),
                    cx,
                    cy,
                    x as int,
                    y as int,
                    width as int,
                    height as int,
                    fill_tile,
                    border_tile,
                ),
    {
        let mut wx: usize = 0;
        while wx < width
            invariant
                self.wf(),
                self.same_frame(*old(self)),
                self.history@ == old(self).history@,
                x + width <= usize::MAX,
                y + height <= usize::MAX,
                wx <= width,
                forall|cx: int, cy: int|
                    #![trigger self.tile(cx, cy)]
                    self.in_bounds(cx, cy) ==> self.tile(cx, cy) == if cx < x + wx {
                        square_tile(
                            old(self).tile(cx, cy),
                            cx,
                            cy,
                            x as int,
                            y as int,
                            width as int,
                            height as int,
                            fill_tile,
                            border_tile,
                        )
                    } else {
                        old(self).tile(cx, cy)
                    },
            decreases width - wx,
        {
            let mut hy: usize = 0;
            while hy < height
                invariant
                    self.wf(),
                    self.same_frame(*old(self)),
                    self.history@ == old(self).history@,
                    x + width <= usize::MAX,
                    y + height <= usize::MAX,
                    wx < width,
                    hy <= height,
                    forall|cx: int, cy: int|
                        #![trigger self.tile(cx, cy)]
                        self.in_bounds(cx, cy) ==> self.tile(cx, cy) == if cx < x + wx || (cx == x
                            + wx && cy < y + hy) {
                            square_tile(
                                old(self).tile(cx, cy),
                                cx,
                                cy,
                                x as int,
                                y as int,
                                width as int,
                                height as int,
                                fill_tile,
                                border_tile,
                            )
                        } else {
                            old(self).tile(cx, cy)
                        },
                decreases height - hy,
            {
                let new_x = x + wx;
                let new_y = y + hy;
                if new_x < self.width && new_y < self.height {
                    if wx == 0 || wx == width - 1 || hy == 0 || hy == height - 1 {
                        self.set_tile(new_x, new_y, border_tile);
                    } else {
                        self.set_tile(new_x, new_y, fill_tile);
                    }
                }
                hy = hy + 1;
            }
            wx = wx + 1;
        }
    }

    /// Every cell holding `tile`, column by column and top to bottom within
    /// a column.
    pub fn get_tile_pos_by_type(&self, tile: GameTile) -> (r: Vec<(usize, usize)>)
        requires
            self.wf(),
        ensures
            forall|i: int|
                #![trigger r@[i]]
                0 <= i < r@.len() ==> self.in_bounds(r@[i].0 as int, r@[i].1 as int) && self.tile(
                    r@[i].0 as int,
                    r@[i].1 as int,
                ) == tile,
            forall|cx: int, cy: int|
                self.in_bounds(cx, cy) && #[trigger] self.tile(cx, cy) == tile ==> r@.contains(
                    (cx as usize, cy as usize),
                ),
            forall|i: int, j: int| 0 <= i < j < r@.len() ==> cell_before(#[trigger] r@[i], #[trigger] r@[j]),
    {
        let mut res: Vec<(usize, usize)> = Vec::new();
        let mut x: usize = 0;
        while x < self.width
            invariant
                self.wf(),
                x <= self.width,
                forall|i: int|
                    #![trigger res@[i]]
                    0 <= i < res@.len() ==> self.in_bounds(res@[i].0 as int, res@[i].1 as int)
                        && self.tile(res@[i].0 as int, res@[i].1 as int) == tile && res@[i].0 < x,
                forall|cx: int, cy: int|
                    self.in_bounds(cx, cy) && #[trigger] self.tile(cx, cy) == tile && cx < x
                        ==> res@.contains((cx as usize, cy as usize)),
                forall|i: int, j: int|
                    0 <= i < j < res@.len() ==> cell_before(#[trigger] res@[i], #[trigger] res@[j]),
            decreases self.width - x,
        {
            let mut y: usize = 0;
            while y < self.height
                invariant
                    self.wf(),
                    x < self.width,
                    y <= self.height,
                    forall|i: int|
                        #![trigger res@[i]]
                        0 <= i < res@.len() ==> self.in_bounds(res@[i].0 as int, res@[i].1 as int)
                            && self.tile(res@[i].0 as int, res@[i].1 as int) == tile && cell_before(
                            res@[i],
                            (x, y),
                        ),
                    forall|cx: int, cy: int|
                        self.in_bounds(cx, cy) && #[trigger] self.tile(cx, cy) == tile && (cx < x || (
                        cx == x && cy < y)) ==> res@.contains((cx as usize, cy as usize)),
                    forall|i: int, j: int|
                        0 <= i < j < res@.len() ==> cell_before(#[trigger] res@[i], #[trigger] res@[j]),
                decreases self.height - y,
            {
                let i = self.xy_idx(x, y);
                if self.tiles[i] == tile {
                    let ghost before = res@;
                    res.push((x, y));
                    assert forall|cx: int, cy: int|
                        self.in_bounds(cx, cy) && #[trigger] self.tile(cx, cy) == tile && (cx < x
                            || (cx == x && cy <= y)) implies res@.contains(
                        (cx as usize, cy as usize),
                    ) by {
                        if cx == x && cy == y {
                            assert(res@[res@.len() - 1] == (x, y));
                        } else {
                            let k = choose|k: int| 0 <= k < before.len() && before[k] == (cx as usize, cy as usize);
                            assert(res@[k] == before[k]);
                        }
                    }
                }
                y = y + 1;
            }
            x = x + 1;
        }
        res
    }

    /// The in-bounds 8-connected neighbours of `pos` with their tiles, in the
    /// order north, south, east, west, north-east, north-west, south-east,
    /// south-west.
    pub fn get_adjacent_tiles(&self, pos: (i32, i32)) -> (r: Vec<(usize, usize, GameTile)>)
        requires
            self.wf(),
        ensures
            r@ == self.adjacent(pos.0 as int, pos.1 as int),
    {
        let (x, y) = pos;
        let mut res: Vec<(usize, usize, GameTile)> = Vec::new();
        let mut k: usize = 0;
        while k < 8
            invariant
                self.wf(),
                k <= 8,
                res@ == self.adjacent_upto(x as int, y as int, k as nat),
            decreases 8 - k,
        {
            let (dx, dy) = neighbor_offset_exec(k);
            let new_x = x as i64 + dx;
            let new_y = y as i64 + dy;
            if new_x >= 0 && new_y >= 0 && new_x < self.width as i64 && new_y < self.height as i64 {
                let i = self.xy_idx(new_x as usize, new_y as usize);
                res.push((new_x as usize, new_y as usize, self.tiles[i]));
            }
            k = k + 1;
        }
        res
    }

    /// How many of the 8-connected neighbours of `pos` hold `tile`.
    pub fn get_adjacent_count_by_type(&self, pos: (i32, i32), tile: GameTile) -> (r: usize)
        requires
            self.wf(),
        ensures
            r == count_kind(self.adjacent(pos.0 as int, pos.1 as int), tile),
    {
        let adjacent_tiles = self.get_adjacent_tiles(pos);
        proof {
            self.lemma_adjacent_upto_len(pos.0 as int, pos.1 as int, 8);
        }
        let mut res_count: usize = 0;
        let mut i: usize = 0;
        while i < adjacent_tiles.len()
            invariant
                i <= adjacent_tiles@.len(),
                adjacent_tiles@.len() <= 8,
                res_count == count_kind(adjacent_tiles@.take(i as int), tile),
                res_count <= i,
            decreases adjacent_tiles@.len() - i,
        {
            assert(adjacent_tiles@.take(i as int + 1).drop_last() =~= adjacent_tiles@.take(i as int));
            if adjacent_tiles[i].2 == tile {
                res_count = res_count + 1;
            }
            i = i + 1;
        }
        assert(adjacent_tiles@.take(i as int) =~= adjacent_tiles@);
        res_count
    }

    /// Recomputes the occupancy flags: a cell blocks exactly when one of
    /// `blockers` stands on it. Positions outside the grid are ignored.
    pub fn set_blockers(&mut self, blockers: &Vec<Position>)
        requires
            old(self).wf(),
        ensures
            final(self).wf(),
            final(self).width == old(self).width,
            final(self).height == old(self).height,
            final(self).tiles@ == old(self).tiles@,
            final(self).viewed_tiles@ == old(self).viewed_tiles@,
            final(self).history@ == old(self).history@,
            forall|cx: int, cy: int|
                #![trigger final(self).blocked(cx, cy)]
                final(self).in_bounds(cx, cy) ==> (final(self).blocked(cx, cy) <==> exists|i: int|
                    0 <= i < blockers@.len() && blockers@[i].x == cx && blockers@[i].y == cy),
    {
        let n = self.width * self.height;
        let mut flags: Vec<bool> = vec![false; n];
        assert forall|cx: int, cy: int| self.in_bounds(cx, cy) implies !flags@[cell_index(
            self.width as int,
            cx,
            cy,
        )] by {
            lemma_cell_index_bounds(self.width as int, self.height as int, cx, cy);
        }
        let mut i: usize = 0;
        while i < blockers.len()
            invariant
                self.wf(),
                *self == *old(self),
                n == self.width * self.height,
                flags@.len() == n,
                i <= blockers@.len(),
                forall|cx: int, cy: int|
                    #![trigger flags@[cell_index(self.width as int, cx, cy)]]
                    self.in_bounds(cx, cy) ==> (flags@[cell_index(self.width as int, cx, cy)]
                        <==> exists|j: int|
                        0 <= j < i && blockers@[j].x == cx && blockers@[j].y == cy),
            decreases blockers@.len() - i,
        {
            let p = blockers[i];
            if self.is_within_bounds(p.x, p.y) {
                let k = self.xy_idx(p.x as usize, p.y as usize);
                flags.set(k, true);
            }
            assert forall|cx: int, cy: int|
                #![trigger flags@[cell_index(self.width as int, cx, cy)]]
                self.in_bounds(cx, cy) implies (flags@[cell_index(self.width as int, cx, cy)]
                    <==> exists|j: int|
                    0 <= j < i + 1 && blockers@[j].x == cx && blockers@[j].y == cy) by {
                lemma_cell_index_bounds(self.width as int, self.height as int, cx, cy);
                if self.in_bounds(p.x as int, p.y as int) && cell_index(self.width as int, cx, cy)
                    == cell_index(self.width as int, p.x as int, p.y as int) {
                    lemma_cell_index_injective(self.width as int, cx, cy, p.x as int, p.y as int);
                }
                if flags@[cell_index(self.width as int, cx, cy)] && !(p.x == cx && p.y == cy) {
                    let j = choose|j: int| 0 <= j < i && blockers@[j].x == cx && blockers@[j].y == cy;
                    assert(0 <= j < i + 1 && blockers@[j].x == cx && blockers@[j].y == cy);
                }
            }
            i = i + 1;
        }
        self.blocking_tiles = flags;
    }
}

} // verus!
