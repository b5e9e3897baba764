//! The simple generator stages: fill, mirror, wall reclassification and
//! random floor spawn.
use vstd::prelude::*;

use crate::builder::MapGenerator;
use crate::geometry::Position;
use crate::grid::{count_kind, has_kind, GameMap, MapError};
use crate::rng::GameRNG;
use crate::tile::GameTile;

verus! {

/// The coordinate that a mirror along one axis of length `n` copies into
/// coordinate `v`: the lower half takes the reflection of the upper half.
pub open spec fn mirror_source(n: int, v: int, on: bool) -> int {
    if on && v < n / 2 {
        2 * (n / 2) - v - 1
    } else {
        v
    }
}

/// `a` and `b` have the same floor cells.
pub open spec fn same_floors(a: GameMap, b: GameMap) -> bool {
    &&& a.width == b.width
    &&& a.height == b.height
    &&& forall|x: int, y: int|
        #![trigger a.tile(x, y)]
        #![trigger b.tile(x, y)]
        a.in_bounds(x, y) ==> (a.tile(x, y) == GameTile::Floor <==> b.tile(x, y) == GameTile::Floor)
}

pub proof fn lemma_same_floors_count(a: GameMap, b: GameMap, x: int, y: int, k: nat)
    requires
        same_floors(a, b),
    ensures
        count_kind(a.adjacent_upto(x, y, k), GameTile::Floor) == count_kind(
            b.adjacent_upto(x, y, k),
            GameTile::Floor,
        ),
    decreases k,
{
    if k > 0 {
        lemma_same_floors_count(a, b, x, y, (k - 1) as nat);
        let d = crate::grid::neighbor_offset(k - 1);
        let sa = a.adjacent_upto(x, y, k);
        let sb = b.adjacent_upto(x, y, k);
        if a.in_bounds(x + d.0, y + d.1) {
            assert(sa.drop_last() =~= a.adjacent_upto(x, y, (k - 1) as nat));
            assert(sb.drop_last() =~= b.adjacent_upto(x, y, (k - 1) as nat));
            assert(a.tile(x + d.0, y + d.1) == GameTile::Floor <==> b.tile(x + d.0, y + d.1)
                == GameTile::Floor);
        }
    }
}

/// What the wall reclassification leaves at `(x, y)` of `m`: an unbreakable
/// wall next to at least one floor cell becomes a breakable wall.
pub open spec fn reclassified(m: GameMap, x: int, y: int) -> GameTile {
    if m.tile(x, y) == GameTile::UnbreakableWall && count_kind(m.adjacent(x, y), GameTile::Floor)
        > 0 {
        GameTile::Wall
    } else {
        m.tile(x, y)
    }
}

/// Sets every cell to one tile kind.
pub struct FillRoomGenerator {
    pub tile: GameTile,
}

impl FillRoomGenerator {
    pub fn new(tile: GameTile) -> (r: MapGenerator)
        ensures
            r == MapGenerator::Fill(FillRoomGenerator { tile }),
    {
        MapGenerator::Fill(FillRoomGenerator { tile })
    }

    /// Every cell becomes `self.tile`, then one snapshot is taken.
    pub fn generate_map(&self, in_map: GameMap, rng: &mut GameRNG) -> (r: GameMap)
        requires
            in_map.wf(),
        ensures
            r.wf(),
            r.same_frame(in_map),
            r.all_tiles(self.tile),
            r.history_view() == in_map.history_view().push(r.tiles@),
    {
        let mut m = in_map;
        m.fill(self.tile);
        m.snapshot();
        m
    }

    /// This stage proposes no spawn position.
    pub fn get_player_spawn(&self, in_map: &GameMap, rng: &mut GameRNG) -> (r: Option<Position>)
        ensures
            r is None,
    {
        None
    }
}

/// Mirrors the grid along the requested axes.
pub struct SymmetricalMapGenerator {
    pub horizontal_symmetry: bool,
    pub vertical_symmetry: bool,
}

/// Copies column `2 * (w / 2) - x - 1` into each column `x < w / 2`.
fn mirror_columns(m: &mut GameMap)
    requires
        old(m).wf(),
    ensures
        final(m).wf(),
        final(m).same_frame(*old(m)),
        final(m).history@ == old(m).history@,
        forall|x: int, y: int|
            #![trigger final(m).tile(x, y)]
            final(m).in_bounds(x, y) ==> final(m).tile(x, y) == old(m).tile(
                mirror_source(old(m).width as int, x, true),
                y,
            ),
{
    let mid = m.width / 2;
    let mut x: usize = 0;
    while x < mid
        invariant
            m.wf(),
            m.same_frame(*old(m)),
            m.history@ == old(m).history@,
            mid == old(m).width / 2,
            x <= mid,
            forall|cx: int, cy: int|
                #![trigger m.tile(cx, cy)]
                m.in_bounds(cx, cy) ==> m.tile(cx, cy) == if cx < x {
                    old(m).tile(mirror_source(old(m).width as int, cx, true), cy)
                } else {
                    old(m).tile(cx, cy)
                },
        decreases mid - x,
    {
        let mut y: usize = 0;
        while y < m.height
            invariant
                m.wf(),
                m.same_frame(*old(m)),
                m.history@ == old(m).history@,
                mid == old(m).width / 2,
                x < mid,
                y <= m.height,
                forall|cx: int, cy: int|
                    #![trigger m.tile(cx, cy)]
                    m.in_bounds(cx, cy) ==> m.tile(cx, cy) == if cx < x || (cx == x && cy < y) {
                        old(m).tile(mirror_source(old(m).width as int, cx, true), cy)
                    } else {
                        old(m).tile(cx, cy)
                    },
            decreases m.height - y,
        {
            let src = 2 * mid - x - 1;
            let i = m.xy_idx(src, y);
            let t = m.tiles[i];
            assert(t == m.tile(src as int, y as int));
            assert(t == old(m).tile(src as int, y as int));
            m.set_tile(x, y, t);
            y = y + 1;
        }
        x = x + 1;
    }
}

/// Copies row `2 * (h / 2) - y - 1` into each row `y < h / 2`.
fn mirror_rows(m: &mut GameMap)
    requires
        old(m).wf(),
    ensures
        final(m).wf(),
        final(m).same_frame(*old(m)),
        final(m).history@ == old(m).history@,
        forall|x: int, y: int|
            #![trigger final(m).tile(x, y)]
            final(m).in_bounds(x, y) ==> final(m).tile(x, y) == old(m).tile(
                x,
                mirror_source(old(m).height as int, y, true),
            ),
{
    let mid = m.height / 2;
    let mut x: usize = 0;
    while x < m.width
        invariant
            m.wf(),
            m.same_frame(*old(m)),
            m.history@ == old(m).history@,
            mid == old(m).height / 2,
            x <= m.width,
            forall|cx: int, cy: int|
                #![trigger m.tile(cx, cy)]
                m.in_bounds(cx, cy) ==> m.tile(cx, cy) == if cx < x && cy < mid {
                    old(m).tile(cx, mirror_source(old(m).height as int, cy, true))
                } else {
                    old(m).tile(cx, cy)
                },
        decreases m.width - x,
    {
        let mut y: usize = 0;
        while y < mid
            invariant
                m.wf(),
                m.same_frame(*old(m)),
                m.history@ == old(m).history@,
                mid == old(m).height / 2,
                x < m.width,
                y <= mid,
                forall|cx: int, cy: int|
                    #![trigger m.tile(cx, cy)]
                    m.in_bounds(cx, cy) ==> m.tile(cx, cy) == if (cx < x && cy < mid) || (cx == x
                        && cy < y) {
                        old(m).tile(cx, mirror_source(old(m).height as int, cy, true))
                    } else {
                        old(m).tile(cx, cy)
                    },
            decreases mid - y,
        {
            let src = 2 * mid - y - 1;
            let i = m.xy_idx(x, src);
            let t = m.tiles[i];
            assert(t == m.tile(x as int, src as int));
            assert(t == old(m).tile(x as int, src as int));
            m.set_tile(x, y, t);
            y = y + 1;
        }
        x = x + 1;
    }
}

impl SymmetricalMapGenerator {
    pub fn new(horizontal_symmetry: bool, vertical_symmetry: bool) -> (r: MapGenerator)
        ensures
            r == MapGenerator::Symmetry(
                SymmetricalMapGenerator { horizontal_symmetry, vertical_symmetry },
            ),
    {
        MapGenerator::Symmetry(SymmetricalMapGenerator { horizontal_symmetry, vertical_symmetry })
    }

    /// The tile a mirrored grid holds at `(x, y)`.
    pub open spec fn mirrored(self, m: GameMap, x: int, y: int) -> GameTile {
        m.tile(
            mirror_source(m.width as int, x, self.horizontal_symmetry),
            mirror_source(m.height as int, y, self.vertical_symmetry),
        )
    }

    /// How many snapshots one run takes: one per axis mirrored.
    pub open spec fn snapshot_count(self) -> nat {
        (if self.horizontal_symmetry { 1nat } else { 0nat }) + (if self.vertical_symmetry {
            1nat
        } else {
            0nat
        })
    }

    /// Mirrors the right half onto the left half when horizontal symmetry is
    /// asked for, then the bottom half onto the top half when vertical
    /// symmetry is; one snapshot after each.
    pub fn generate_map(&self, in_map: GameMap, rng: &mut GameRNG) -> (r: GameMap)
        requires
            in_map.wf(),
        ensures
            r.wf(),
            r.same_frame(in_map),
            forall|x: int, y: int|
                #![trigger r.tile(x, y)]
                r.in_bounds(x, y) ==> r.tile(x, y) == self.mirrored(in_map, x, y),
            r.history_view().len() == in_map.history_view().len() + self.snapshot_count(),
            r.history_view().subrange(0, in_map.history_view().len() as int)
                == in_map.history_view(),
            self.snapshot_count() > 0 ==> r.history_view().last() == r.tiles@,
    {
        let mut m = in_map;
        let ghost start = m;
        if self.horizontal_symmetry {
            mirror_columns(&mut m);
            m.snapshot();
        }
        if self.vertical_symmetry {
            mirror_rows(&mut m);
            m.snapshot();
        }
        assert(m.history_view().subrange(0, start.history_view().len() as int)
            =~= start.history_view());
        m
    }

    /// This stage proposes no spawn position.
    pub fn get_player_spawn(&self, in_map: &GameMap, rng: &mut GameRNG) -> (r: Option<Position>)
        ensures
            r is None,
    {
        None
    }
}

/// Turns the unbreakable walls that border a floor into breakable walls.
pub struct ReplaceVisibleWallsWithBreakableMapGenerator {}

impl ReplaceVisibleWallsWithBreakableMapGenerator {
    pub fn new() -> (r: MapGenerator)
        ensures
            r == MapGenerator::ReplaceWalls(ReplaceVisibleWallsWithBreakableMapGenerator {  }),
    {
        MapGenerator::ReplaceWalls(ReplaceVisibleWallsWithBreakableMapGenerator {  })
    }

    /// Every unbreakable wall with a floor among its eight neighbours becomes
    /// a breakable wall; other cells keep their tile. One snapshot at the end.
    pub fn generate_map(&self, in_map: GameMap, rng: &mut GameRNG) -> (r: GameMap)
        requires
            in_map.wf(),
        ensures
            r.wf(),
            r.same_frame(in_map),
            forall|x: int, y: int|
                #![trigger r.tile(x, y)]
                r.in_bounds(x, y) ==> r.tile(x, y) == reclassified(in_map, x, y),
            r.history_view() == in_map.history_view().push(r.tiles@),
    {
        let mut m = in_map;
        let ghost start = m;
        let mut x: usize = 0;
        while x < m.width
            invariant
                m.wf(),
                m.same_frame(start),
                m.history@ == start.history@,
                start.wf(),
                x <= m.width,
                same_floors(m, start),
                forall|cx: int, cy: int|
                    #![trigger m.tile(cx, cy)]
                    m.in_bounds(cx, cy) ==> m.tile(cx, cy) == if cx < x {
                        reclassified(start, cx, cy)
                    } else {
                        start.tile(cx, cy)
                    },
            decreases m.width - x,
        {
            let mut y: usize = 0;
            while y < m.height
                invariant
                    m.wf(),
                    m.same_frame(start),
                    m.history@ == start.history@,
                    start.wf(),
                    x < m.width,
                    y <= m.height,
                    same_floors(m, start),
                    forall|cx: int, cy: int|
                        #![trigger m.tile(cx, cy)]
                        m.in_bounds(cx, cy) ==> m.tile(cx, cy) == if cx < x || (cx == x && cy < y) {
                            reclassified(start, cx, cy)
                        } else {
                            start.tile(cx, cy)
                        },
                decreases m.height - y,
            {
                let i = m.xy_idx(x, y);
                let is_unbreakable = m.tiles[i] == GameTile::UnbreakableWall;
                if is_unbreakable {
                    let n = m.get_adjacent_count_by_type((x as i32, y as i32), GameTile::Floor);
                    proof {
                        lemma_same_floors_count(m, start, x as int, y as int, 8);
                    }
                    if n > 0 {
                        m.set_tile(x, y, GameTile::Wall);
                    }
                }
                y = y + 1;
            }
            x = x + 1;
        }
        m.snapshot();
        m
    }

    /// This stage proposes no spawn position.
    pub fn get_player_spawn(&self, in_map: &GameMap, rng: &mut GameRNG) -> (r: Option<Position>)
        ensures
            r is None,
    {
        None
    }
}

/// Proposes a random floor cell as the player's start.
pub struct RandomFreeSpaceSpawn {}

impl RandomFreeSpaceSpawn {
    pub fn new() -> (r: MapGenerator)
        ensures
            r == MapGenerator::RandomSpawn(RandomFreeSpaceSpawn {  }),
    {
        MapGenerator::RandomSpawn(RandomFreeSpaceSpawn {  })
    }

    /// Leaves the grid as it is.
    pub fn generate_map(&self, in_map: GameMap, rng: &mut GameRNG) -> (r: GameMap)
        ensures
            r == in_map,
    {
        in_map
    }

    /// A floor cell drawn uniformly from all floor cells; `NoCandidateTiles`
    /// when the grid has none.
    pub fn get_player_spawn(&self, in_map: &GameMap, rng: &mut GameRNG) -> (r: Result<
        Option<Position>,
        MapError,
    >)
        requires
            in_map.wf(),
        ensures
            r is Err <==> !has_kind(*in_map, GameTile::Floor),
            r is Err ==> r == Err::<Option<Position>, MapError>(MapError::NoCandidateTiles),
            r matches Ok(p) ==> p matches Some(q) && in_map.in_bounds(q.x as int, q.y as int)
                && in_map.tile(q.x as int, q.y as int) == GameTile::Floor,
    {
        random_cell_of_kind(in_map, GameTile::Floor, rng)
    }
}

/// A cell of kind `kind` drawn uniformly from all such cells of `m`, or
/// `NoCandidateTiles` when there is none.
pub fn random_cell_of_kind(m: &GameMap, kind: GameTile, rng: &mut GameRNG) -> (r: Result<
    Option<Position>,
    MapError,
>)
    requires
        m.wf(),
    ensures
        r is Err <==> !has_kind(*m, kind),
        r is Err ==> r == Err::<Option<Position>, MapError>(MapError::NoCandidateTiles),
        r matches Ok(p) ==> p matches Some(q) && m.in_bounds(q.x as int, q.y as int) && m.tile(
            q.x as int,
            q.y as int,
        ) == kind,
{
    let cells = m.get_tile_pos_by_type(kind);
    if cells.len() == 0 {
        assert forall|x: int, y: int| m.in_bounds(x, y) implies #[trigger] m.tile(x, y) != kind by {
            if m.tile(x, y) == kind {
                assert(cells@.contains((x as usize, y as usize)));
            }
        }
        return Err(MapError::NoCandidateTiles);
    }
    let k = rng.rand_index(cells.len());
    let (x, y) = cells[k];
    Ok(Some(Position { x: x as i32, y: y as i32 }))
}

/// Filling with `X` leaves every cell `X`; started from a grid without
/// snapshots, it leaves exactly one.
pub proof fn law_fill_single_snapshot(g: FillRoomGenerator, in_map: GameMap, r: GameMap)
    requires
        MapGenerator::Fill(g).generated(in_map, r),
        in_map.history@.len() == 0,
    ensures
        forall|x: int, y: int| r.in_bounds(x, y) ==> #[trigger] r.tile(x, y) == g.tile,
        r.history_view().len() == 1,
        r.history_view()[0] == r.tiles@,
{
    assert(in_map.history_view().len() == 0);
}

/// Mirroring twice along the same axes gives the grid mirroring once gave.
pub proof fn law_mirror_idempotent(g: SymmetricalMapGenerator, m: GameMap, once: GameMap, twice: GameMap)
    requires
        m.wf(),
        MapGenerator::Symmetry(g).generated(m, once),
        MapGenerator::Symmetry(g).generated(once, twice),
    ensures
        twice.tiles@ == once.tiles@,
{
    assert forall|x: int, y: int| twice.in_bounds(x, y) implies #[trigger] twice.tile(x, y)
        == once.tile(x, y) by {
        let sx = mirror_source(m.width as int, x, g.horizontal_symmetry);
        let sy = mirror_source(m.height as int, y, g.vertical_symmetry);
        assert(once.in_bounds(sx, sy));
        assert(once.tile(sx, sy) == g.mirrored(m, sx, sy));
        assert(mirror_source(m.width as int, sx, g.horizontal_symmetry) == sx);
        assert(mirror_source(m.height as int, sy, g.vertical_symmetry) == sy);
    }
    assert forall|i: int| 0 <= i < twice.tiles@.len() implies twice.tiles@[i] == once.tiles@[i] by {
        let w = m.width as int;
        let x = i % w;
        let y = i / w;
        vstd::arithmetic::div_mod::lemma_fundamental_div_mod(i, w);
        vstd::arithmetic::div_mod::lemma_mod_bound(i, w);
        vstd::arithmetic::div_mod::lemma_div_pos_is_pos(i, w);
        assert(y < m.height as int) by (nonlinear_arith)
            requires
                i == w * y + x,
                0 <= x,
                i < w * m.height,
                w > 0,
        ;
        assert(twice.tile(x, y) == once.tile(x, y));
        assert(crate::grid::cell_index(w, x, y) == i);
    }
    assert(twice.tiles@ =~= once.tiles@);
}

} // verus!
