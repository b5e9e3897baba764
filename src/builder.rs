//! The generation pipeline: an ordered list of stages applied to one grid.
use vstd::prelude::*;

use crate::bsp::{on_ring, BSPRoomMapGenerator};
use crate::drunkards::{kind_offsets, DrunkardsWalkMapGenerator};
use crate::generators::{
    reclassified, FillRoomGenerator, RandomFreeSpaceSpawn,
    ReplaceVisibleWallsWithBreakableMapGenerator, SymmetricalMapGenerator,
};
use crate::geometry::{Position, Rectangle};
use crate::grid::{has_kind, snapshots_view, GameMap, MapError};
use crate::rng::GameRNG;
use crate::tile::GameTile;

verus! {

/// Which kind of stage a generator is.
#[derive(Clone, Copy, Debug, PartialEq, Eq, Structural)]
pub enum StageKind {
    Fill,
    Bsp,
    Drunkards,
    Symmetry,
    ReplaceWalls,
    RandomSpawn,
}

/// A failed stage: which kind of stage it was and why it failed.
#[derive(Clone, Copy, Debug, PartialEq, Eq, Structural)]
pub struct StageError {
    pub stage: StageKind,
    pub error: MapError,
}

/// One generator stage with its configuration.
pub enum MapGenerator {
    Fill(FillRoomGenerator),
    Bsp(BSPRoomMapGenerator),
    Drunkards(DrunkardsWalkMapGenerator),
    Symmetry(SymmetricalMapGenerator),
    ReplaceWalls(ReplaceVisibleWallsWithBreakableMapGenerator),
    RandomSpawn(RandomFreeSpaceSpawn),
}

impl MapGenerator {
    pub open spec fn spec_kind(self) -> StageKind {
        match self {
            MapGenerator::Fill(_) => StageKind::Fill,
            MapGenerator::Bsp(_) => StageKind::Bsp,
            MapGenerator::Drunkards(_) => StageKind::Drunkards,
            MapGenerator::Symmetry(_) => StageKind::Symmetry,
            MapGenerator::ReplaceWalls(_) => StageKind::ReplaceWalls,
            MapGenerator::RandomSpawn(_) => StageKind::RandomSpawn,
        }
    }

    /// The kind of this stage.
    pub fn kind(&self) -> (r: StageKind)
        ensures
            r == self.spec_kind(),
    {
        match self {
            MapGenerator::Fill(_) => StageKind::Fill,
            MapGenerator::Bsp(_) => StageKind::Bsp,
            MapGenerator::Drunkards(_) => StageKind::Drunkards,
            MapGenerator::Symmetry(_) => StageKind::Symmetry,
            MapGenerator::ReplaceWalls(_) => StageKind::ReplaceWalls,
            MapGenerator::RandomSpawn(_) => StageKind::RandomSpawn,
        }
    }

    /// What holds of every successful run of this stage from `in_map` to `r`.
    pub open spec fn generated(self, in_map: GameMap, r: GameMap) -> bool {
        match self {
            MapGenerator::Fill(g) => {
                &&& r.wf()
                &&& r.same_frame(in_map)
                &&& r.all_tiles(g.tile)
                &&& r.history_view() == in_map.history_view().push(r.tiles@)
            },
            MapGenerator::Bsp(g) => exists|rooms: Seq<Rectangle>| g.carved(in_map, r, rooms),
            MapGenerator::Drunkards(g) => g.walked(in_map, r),
            MapGenerator::Symmetry(g) => {
                &&& r.wf()
                &&& r.same_frame(in_map)
                &&& forall|x: int, y: int|
                    #![trigger r.tile(x, y)]
                    r.in_bounds(x, y) ==> r.tile(x, y) == g.mirrored(in_map, x, y)
                &&& r.history_view().len() == in_map.history_view().len() + g.snapshot_count()
                &&& r.history_view().subrange(0, in_map.history_view().len() as int)
                    == in_map.history_view()
                &&& g.snapshot_count() > 0 ==> r.history_view().last() == r.tiles@
            },
            MapGenerator::ReplaceWalls(_) => {
                &&& r.wf()
                &&& r.same_frame(in_map)
                &&& forall|x: int, y: int|
                    #![trigger r.tile(x, y)]
                    r.in_bounds(x, y) ==> r.tile(x, y) == reclassified(in_map, x, y)
                &&& r.history_view() == in_map.history_view().push(r.tiles@)
            },
            MapGenerator::RandomSpawn(_) => r == in_map,
        }
    }

    /// Runs the stage on `in_map`. Only the drunkard's walk can fail, with
    /// `NoCandidateTiles`, and exactly when its own contract says so.
    pub fn generate_map(&self, in_map: GameMap, rng: &mut GameRNG) -> (r: Result<GameMap, MapError>)
        requires
            in_map.wf(),
        ensures
            r matches Ok(m) ==> self.generated(in_map, m),
            r is Err ==> r == Err::<GameMap, MapError>(MapError::NoCandidateTiles),
            r is Err ==> self is Drunkards,
            self matches MapGenerator::Drunkards(g) ==> (g.target_num_drunkards > 0 && !has_kind(
                in_map,
                g.start_tile,
            ) ==> r is Err),
            self matches MapGenerator::Drunkards(g) ==> (g.target_num_drunkards == 0 || (
            g.start_tile == GameTile::Floor && has_kind(in_map, GameTile::Floor)) ==> r is Ok),
            self matches MapGenerator::Drunkards(g) ==> (g.target_num_drunkards <= 1 && has_kind(
                in_map,
                g.start_tile,
            ) ==> r is Ok),
            self matches MapGenerator::Drunkards(g) ==> (kind_offsets(in_map.tiles@, g.start_tile).len()
                > (g.target_num_drunkards - 1) * (g.drunkard_lifetime + 1) ==> r is Ok),
    {
        match self {
            MapGenerator::Fill(g) => Ok(g.generate_map(in_map, rng)),
            MapGenerator::Bsp(g) => Ok(g.generate_map(in_map, rng)),
            MapGenerator::Drunkards(g) => g.generate_map(in_map, rng),
            MapGenerator::Symmetry(g) => Ok(g.generate_map(in_map, rng)),
            MapGenerator::ReplaceWalls(g) => Ok(g.generate_map(in_map, rng)),
            MapGenerator::RandomSpawn(g) => Ok(g.generate_map(in_map, rng)),
        }
    }

    /// The spawn position this stage proposes for `in_map`: only the random
    /// free-space stage proposes one, a floor cell, and fails with
    /// `NoCandidateTiles` when there is no floor.
    pub fn get_player_spawn(&self, in_map: &GameMap, rng: &mut GameRNG) -> (r: Result<
        Option<Position>,
        MapError,
    >)
        requires
            in_map.wf(),
        ensures
            !(self is RandomSpawn) ==> r == Ok::<Option<Position>, MapError>(None),
            self is RandomSpawn ==> (r is Err <==> !has_kind(*in_map, GameTile::Floor)),
            r is Err ==> r == Err::<Option<Position>, MapError>(MapError::NoCandidateTiles),
            self is RandomSpawn ==> (r matches Ok(p) ==> p matches Some(q) && in_map.in_bounds(
                q.x as int,
                q.y as int,
            ) && in_map.tile(q.x as int, q.y as int) == GameTile::Floor),
    {
        match self {
            MapGenerator::Fill(g) => Ok(g.get_player_spawn(in_map, rng)),
            MapGenerator::Bsp(g) => Ok(g.get_player_spawn(in_map, rng)),
            MapGenerator::Drunkards(g) => Ok(g.get_player_spawn(in_map, rng)),
            MapGenerator::Symmetry(g) => Ok(g.get_player_spawn(in_map, rng)),
            MapGenerator::ReplaceWalls(g) => Ok(g.get_player_spawn(in_map, rng)),
            MapGenerator::RandomSpawn(g) => g.get_player_spawn(in_map, rng),
        }
    }
}

/// Owns the grid while a map is generated, the spawn position proposed so
/// far and every snapshot the stages took, in order.
pub struct MapBuilder {
    pub map: GameMap,
    pub player_spawn_position: Position,
    pub history: Vec<Vec<GameTile>>,
}

impl MapBuilder {
    /// The grid is valid and holds no snapshots of its own.
    pub open spec fn wf(self) -> bool {
        self.map.wf() && self.map.history@.len() == 0
    }

    pub open spec fn history_view(self) -> Seq<Seq<GameTile>> {
        snapshots_view(self.history@)
    }

    /// A builder over a fresh `width` by `height` floor grid, spawn `(0, 0)`
    /// and no history; `InvalidDimensions` as for `GameMap::new`.
    pub fn new(width: usize, height: usize) -> (r: Result<MapBuilder, MapError>)
        ensures
            r is Ok <==> (1 <= width <= crate::grid::MAX_DIMENSION && 1 <= height
                <= crate::grid::MAX_DIMENSION && width * height <= usize::MAX),
            r is Err ==> r == Err::<MapBuilder, MapError>(MapError::InvalidDimensions),
            r matches Ok(b) ==> {
                &&& b.wf()
                &&& b.map.width == width
                &&& b.map.height == height
                &&& b.map.all_tiles(GameTile::Floor)
                &&& b.player_spawn_position == Position { x: 0, y: 0 }
                &&& b.history@.len() == 0
            },
    {
        match GameMap::new(width, height) {
            Ok(map) => Ok(
                MapBuilder { map, player_spawn_position: Position { x: 0, y: 0 }, history: Vec::new() },
            ),
            Err(e) => Err(e),
        }
    }

    /// Applies one stage: runs it on the current grid, appends the snapshots
    /// it took to the history, keeps its grid (without snapshots) as the
    /// current one, and takes the spawn position it proposes, if any. An
    /// error names the kind of stage that failed; the pipeline is then over
    /// and the builder should be dropped.
    pub fn with_generator(&mut self, map_generator: &MapGenerator, rng: &mut GameRNG) -> (r: Result<
        (),
        StageError,
    >)
        requires
            old(self).wf(),
        ensures
            r is Err ==> r == Err::<(), StageError>(
                StageError { stage: map_generator.spec_kind(), error: MapError::NoCandidateTiles },
            ),
            r is Err ==> map_generator is Drunkards || map_generator is RandomSpawn,
            map_generator is RandomSpawn ==> (r is Err <==> !has_kind(old(self).map, GameTile::Floor)),
            map_generator matches MapGenerator::Drunkards(g) ==> (g.target_num_drunkards == 0 || (
            g.start_tile == GameTile::Floor && has_kind(old(self).map, GameTile::Floor)) ==> r is Ok),
            map_generator matches MapGenerator::Drunkards(g) ==> (g.target_num_drunkards <= 1
                && has_kind(old(self).map, g.start_tile) ==> r is Ok),
            map_generator matches MapGenerator::Drunkards(g) ==> (kind_offsets(
                old(self).map.tiles@,
                g.start_tile,
            ).len() > (g.target_num_drunkards - 1) * (g.drunkard_lifetime + 1) ==> r is Ok),
            r is Ok ==> final(self).wf(),
            r is Ok ==> exists|out: GameMap|
                {
                    &&& map_generator.generated(old(self).map, out)
                    &&& final(self).map.tiles@ == out.tiles@
                    &&& final(self).map.same_frame(out)
                    &&& final(self).history_view() == old(self).history_view() + out.history_view()
                },
            r is Ok && map_generator is RandomSpawn ==> final(self).map.in_bounds(
                final(self).player_spawn_position.x as int,
                final(self).player_spawn_position.y as int,
            ) && final(self).map.tile(
                final(self).player_spawn_position.x as int,
                final(self).player_spawn_position.y as int,
            ) == GameTile::Floor,
            r is Ok && !(map_generator is RandomSpawn) ==> final(self).player_spawn_position
                == old(self).player_spawn_position,
    {
        let mut current = GameMap {
            width: 0,
            height: 0,
            tiles: Vec::new(),
            viewed_tiles: Vec::new(),
            blocking_tiles: Vec::new(),
            history: Vec::new(),
        };
        core::mem::swap(&mut self.map, &mut current);
        let mut out = match map_generator.generate_map(current, rng) {
            Ok(m) => m,
            Err(e) => {
                return Err(StageError { stage: map_generator.kind(), error: e });
            },
        };
        let ghost produced = out;
        let ghost h0 = self.history_view();
        let mut k: usize = 0;
        while k < out.history.len()
            invariant
                out == produced,
                k <= out.history@.len(),
                self.history_view() == h0 + out.history_view().take(k as int),
                self.history@.len() == h0.len() + k,
                h0.len() == old(self).history@.len(),
                self.player_spawn_position == old(self).player_spawn_position,
            decreases out.history@.len() - k,
        {
            let snap = out.history[k].clone();
            let ghost prev = self.history@;
            self.history.push(snap);
            assert(self.history@ == prev.push(snap));
            assert(snap@ == out.history_view()[k as int]);
            assert(self.history_view()[prev.len() as int] == snap@);
            assert(self.history_view() =~= h0 + out.history_view().take(k as int + 1)) by {
                assert(self.history_view().len() == prev.len() + 1);
                assert forall|i: int| 0 <= i < self.history_view().len() implies self.history_view()[i]
                    == (h0 + out.history_view().take(k as int + 1))[i] by {
                    if i < prev.len() {
                        assert(self.history@[i] == prev[i]);
                        assert(snapshots_view(prev)[i] == (h0 + out.history_view().take(k as int))[i]);
                    }
                }
            }
            k = k + 1;
        }
        assert(out.history_view().take(k as int) =~= out.history_view());
        out.clear_history();
        assert(out.tiles@ == produced.tiles@);
        proof {
            if map_generator is RandomSpawn {
                if has_kind(old(self).map, GameTile::Floor) {
                    let (x, y) = choose|x: int, y: int|
                        old(self).map.in_bounds(x, y) && #[trigger] old(self).map.tile(x, y) == GameTile::Floor;
                    assert(out.tile(x, y) == produced.tile(x, y));
                }
                if has_kind(out, GameTile::Floor) {
                    let (x, y) = choose|x: int, y: int|
                        out.in_bounds(x, y) && #[trigger] out.tile(x, y) == GameTile::Floor;
                    assert(out.tile(x, y) == produced.tile(x, y));
                }
            }
        }
        match map_generator.get_player_spawn(&out, rng) {
            Ok(Some(p)) => {
                self.player_spawn_position = p;
            },
            Ok(None) => {},
            Err(e) => {
                self.map = out;
                return Err(StageError { stage: map_generator.kind(), error: e });
            },
        }
        self.map = out;
        Ok(())
    }

    /// A copy of the current grid.
    pub fn get_map(&self) -> (r: GameMap)
        requires
            self.wf(),
        ensures
            r.wf(),
            r.width == self.map.width,
            r.height == self.map.height,
            r.tiles@ == self.map.tiles@,
            r.viewed_tiles@ == self.map.viewed_tiles@,
            r.blocking_tiles@ == self.map.blocking_tiles@,
            r.history@.len() == 0,
    {
        GameMap {
            width: self.map.width,
            height: self.map.height,
            tiles: self.map.tiles.clone(),
            viewed_tiles: self.map.viewed_tiles.clone(),
            blocking_tiles: self.map.blocking_tiles.clone(),
            history: Vec::new(),
        }
    }

    pub fn get_spawn_position(&self) -> (r: Position)
        ensures
            r == self.player_spawn_position,
    {
        self.player_spawn_position
    }

    /// A copy of every snapshot taken so far, oldest first.
    pub fn get_history(&self) -> (r: Vec<Vec<GameTile>>)
        ensures
            snapshots_view(r@) == self.history_view(),
    {
        let mut res: Vec<Vec<GameTile>> = Vec::new();
        let mut k: usize = 0;
        while k < self.history.len()
            invariant
                k <= self.history@.len(),
                snapshots_view(res@) == self.history_view().take(k as int),
                res@.len() == k,
            decreases self.history@.len() - k,
        {
            let snap = self.history[k].clone();
            assert(snap@ == self.history_view()[k as int]);
            let ghost prev = res@;
            res.push(snap);
            assert(res@ == prev.push(snap));
            assert(snapshots_view(res@)[k as int] == snap@);
            assert(snapshots_view(res@) =~= self.history_view().take(k as int + 1)) by {
                assert forall|i: int| 0 <= i < res@.len() implies #[trigger] snapshots_view(res@)[i]
                    == self.history_view().take(k as int + 1)[i] by {
                    if i < prev.len() {
                        assert(res@[i] == prev[i]);
                        assert(snapshots_view(prev)[i] == self.history_view().take(k as int)[i]);
                    }
                }
            }
            k = k + 1;
        }
        assert(self.history_view().take(k as int) =~= self.history_view());
        res
    }
}

/// Filling with unbreakable wall, carving rooms by BSP and then
/// reclassifying the walls leaves a wall, of one kind or the other, on every
/// cell of the grid's outer ring.
pub proof fn law_standard_pipeline_ring_is_wall(
    g: BSPRoomMapGenerator,
    m0: GameMap,
    m1: GameMap,
    m2: GameMap,
    m3: GameMap,
)
    requires
        m0.wf(),
        MapGenerator::Fill(FillRoomGenerator { tile: GameTile::UnbreakableWall }).generated(m0, m1),
        MapGenerator::Bsp(g).generated(m1, m2),
        MapGenerator::ReplaceWalls(ReplaceVisibleWallsWithBreakableMapGenerator {  }).generated(m2, m3),
    ensures
        forall|x: int, y: int|
            on_ring(m3, x, y) ==> #[trigger] m3.tile(x, y) == GameTile::Wall || m3.tile(x, y)
                == GameTile::UnbreakableWall,
{
    let rooms = choose|rooms: Seq<Rectangle>| g.carved(m1, m2, rooms);
    assert forall|x: int, y: int| on_ring(m3, x, y) implies #[trigger] m3.tile(x, y) == GameTile::Wall
        || m3.tile(x, y) == GameTile::UnbreakableWall by {
        assert(on_ring(m1, x, y));
        assert(m1.tile(x, y) == GameTile::UnbreakableWall);
        assert(m2.tile(x, y) == m1.tile(x, y));
        assert(m3.tile(x, y) == reclassified(m2, x, y));
    }
}

} // verus!
