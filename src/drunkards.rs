//! Drunkard's walk: random walkers that carve floor into the grid.
use vstd::prelude::*;

use crate::builder::MapGenerator;
use crate::geometry::Position;
use crate::grid::{has_kind, GameMap, MapError};
use crate::rng::GameRNG;
use crate::tile::GameTile;

verus! {

/// Every floor cell of `a` is a floor cell of `b`.
pub open spec fn floors_grow(a: Seq<GameTile>, b: Seq<GameTile>) -> bool {
    &&& a.len() == b.len()
    &&& forall|i: int| 0 <= i < a.len() && #[trigger] a[i] == GameTile::Floor ==> b[i] == GameTile::Floor
}

/// The number of floor cells in a tile array.
pub open spec fn floor_count(s: Seq<GameTile>) -> nat
    decreases s.len(),
{
    if s.len() == 0 {
        0
    } else {
        floor_count(s.drop_last()) + if s.last() == GameTile::Floor {
            1nat
        } else {
            0nat
        }
    }
}

/// Growing the floor never lowers the number of floor cells.
pub proof fn lemma_floor_count_grows(a: Seq<GameTile>, b: Seq<GameTile>)
    requires
        floors_grow(a, b),
    ensures
        floor_count(a) <= floor_count(b),
    decreases a.len(),
{
    if a.len() > 0 {
        let n = a.len() - 1;
        assert(a[n] == GameTile::Floor ==> b[n] == GameTile::Floor);
        assert(floors_grow(a.drop_last(), b.drop_last()));
        lemma_floor_count_grows(a.drop_last(), b.drop_last());
    }
}

/// The offsets of the cells of `s` that hold `t`.
pub open spec fn kind_offsets(s: Seq<GameTile>, t: GameTile) -> Set<int> {
    Set::new(|i: int| 0 <= i < s.len() && s[i] == t)
}

/// Drops walkers onto cells of `start_tile` and lets each stagger for
/// `drunkard_lifetime` steps, carving floor wherever it goes.
pub struct DrunkardsWalkMapGenerator {
    pub target_num_drunkards: usize,
    pub drunkard_lifetime: usize,
    pub start_tile: GameTile,
}

/// The step for each of the four cardinal directions: north, east, south, west.
pub open spec fn step_of(d: int) -> (int, int) {
    if d == 0 {
        (0, 1)
    } else if d == 1 {
        (1, 0)
    } else if d == 2 {
        (0, -1)
    } else {
        (-1, 0)
    }
}

/// Where a walker starting at `start` stands after the first `k` of the
/// directions `dirs` (0 north, 1 east, 2 south, 3 west): a step that would
/// leave the grid of `m` is skipped.
pub open spec fn walk_pos(m: GameMap, start: (int, int), dirs: Seq<i32>, k: int) -> (int, int)
    decreases k,
{
    if k <= 0 {
        start
    } else {
        let p = walk_pos(m, start, dirs, k - 1);
        let d = step_of(dirs[k - 1] as int);
        if m.in_bounds(p.0 + d.0, p.1 + d.1) {
            (p.0 + d.0, p.1 + d.1)
        } else {
            p
        }
    }
}

/// The walker stands on `(x, y)` at some point of the walk.
pub open spec fn walk_visits(m: GameMap, start: (int, int), dirs: Seq<i32>, x: int, y: int) -> bool {
    exists|k: int| 0 <= k <= dirs.len() && #[trigger] walk_pos(m, start, dirs, k) == (x, y)
}

/// The array offsets of the cells the walker stands on at its first `n`
/// positions (the start is position 0).
pub open spec fn walk_offsets(m: GameMap, start: (int, int), dirs: Seq<i32>, n: nat) -> Set<int>
    decreases n,
{
    if n == 0 {
        Set::empty()
    } else {
        let p = walk_pos(m, start, dirs, n - 1);
        walk_offsets(m, start, dirs, (n - 1) as nat).insert(m.idx(p.0, p.1))
    }
}

/// A walk's first `n` positions cover at most `n` offsets.
pub proof fn lemma_walk_offsets_size(m: GameMap, start: (int, int), dirs: Seq<i32>, n: nat)
    ensures
        walk_offsets(m, start, dirs, n).finite(),
        walk_offsets(m, start, dirs, n).len() <= n,
    decreases n,
{
    if n > 0 {
        lemma_walk_offsets_size(m, start, dirs, (n - 1) as nat);
    }
}

proof fn lemma_walk_offsets_grow(m: GameMap, start: (int, int), dirs: Seq<i32>, n: nat, k: nat)
    requires
        k < n,
    ensures
        walk_offsets(m, start, dirs, n).contains(
            m.idx(walk_pos(m, start, dirs, k as int).0, walk_pos(m, start, dirs, k as int).1),
        ),
        walk_offsets(m, start, dirs, (n - 1) as nat).subset_of(walk_offsets(m, start, dirs, n)),
    decreases n,
{
    if k < n - 1 {
        lemma_walk_offsets_grow(m, start, dirs, (n - 1) as nat, k);
    }
}

fn direction_step(d: i32) -> (r: (i64, i64))
    requires
        0 <= d < 4,
    ensures
        r.0 == step_of(d as int).0,
        r.1 == step_of(d as int).1,
{
    if d == 0 {
        (0, 1)
    } else if d == 1 {
        (1, 0)
    } else if d == 2 {
        (0, -1)
    } else {
        (-1, 0)
    }
}

/// Walks from `start` along `dirs` and turns the start cell and every cell
/// the walker enters to floor; every other cell keeps its tile.
pub fn walk(m: &mut GameMap, start: (usize, usize), dirs: &Vec<i32>)
    requires
        old(m).wf(),
        start.0 < old(m).width,
        start.1 < old(m).height,
        forall|i: int| 0 <= i < dirs@.len() ==> 0 <= #[trigger] dirs@[i] < 4,
    ensures
        final(m).wf(),
        final(m).same_frame(*old(m)),
        final(m).history@ == old(m).history@,
        forall|i: int|
            0 <= i < final(m).tiles@.len() ==> #[trigger] final(m).tiles@[i] == GameTile::Floor
                || final(m).tiles@[i] == old(m).tiles@[i],
        forall|i: int|
            0 <= i < final(m).tiles@.len() && #[trigger] final(m).tiles@[i] != old(m).tiles@[i]
                ==> walk_offsets(*old(m), (start.0 as int, start.1 as int), dirs@, (dirs@.len() + 1) as nat).contains(i),
        forall|x: int, y: int|
            #![trigger final(m).tile(x, y)]
            final(m).in_bounds(x, y) ==> final(m).tile(x, y) == if walk_visits(
                *old(m),
                (start.0 as int, start.1 as int),
                dirs@,
                x,
                y,
            ) {
                GameTile::Floor
            } else {
                old(m).tile(x, y)
            },
{
    let ghost s0 = (start.0 as int, start.1 as int);
    m.set_tile(start.0, start.1, GameTile::Floor);
    assert forall|i: int| 0 <= i < m.tiles@.len() implies #[trigger] m.tiles@[i] == GameTile::Floor
        || m.tiles@[i] == old(m).tiles@[i] by {
        let j = old(m).idx(start.0 as int, start.1 as int);
        crate::grid::lemma_cell_index_bounds(old(m).width as int, old(m).height as int, start.0 as int, start.1 as int);
        assert(m.tiles@ == old(m).tiles@.update(j, GameTile::Floor));
        if i != j {
            assert(old(m).tiles@.update(j, GameTile::Floor)[i] == old(m).tiles@[i]);
        }
    }
    assert forall|i: int|
        0 <= i < m.tiles@.len() && #[trigger] m.tiles@[i] != old(m).tiles@[i] implies walk_offsets(
        *old(m),
        s0,
        dirs@,
        1,
    ).contains(i) by {
        let j = old(m).idx(start.0 as int, start.1 as int);
        crate::grid::lemma_cell_index_bounds(old(m).width as int, old(m).height as int, start.0 as int, start.1 as int);
        assert(m.tiles@ == old(m).tiles@.update(j, GameTile::Floor));
        if i != j {
            assert(old(m).tiles@.update(j, GameTile::Floor)[i] == old(m).tiles@[i]);
        }
        assert(walk_pos(*old(m), s0, dirs@, 0) == s0);
    }
    let mut cx = start.0;
    let mut cy = start.1;
    let mut k: usize = 0;
    proof {
        assert forall|x: int, y: int|
            #![trigger m.tile(x, y)]
            m.in_bounds(x, y) implies m.tile(x, y) == if exists|j: int|
                0 <= j <= k && #[trigger] walk_pos(*old(m), s0, dirs@, j) == (x, y) {
                GameTile::Floor
            } else {
                old(m).tile(x, y)
            } by {
            if exists|j: int| 0 <= j <= k && #[trigger] walk_pos(*old(m), s0, dirs@, j) == (x, y) {
                let j = choose|j: int| 0 <= j <= k && #[trigger] walk_pos(*old(m), s0, dirs@, j) == (x, y);
                assert(j == 0);
            }
            if x == s0.0 && y == s0.1 {
                assert(walk_pos(*old(m), s0, dirs@, 0) == (x, y));
            }
        }
    }
    while k < dirs.len()
        invariant
            m.wf(),
            m.same_frame(*old(m)),
            m.history@ == old(m).history@,
            old(m).wf(),
            k <= dirs@.len(),
            forall|i: int| 0 <= i < dirs@.len() ==> 0 <= #[trigger] dirs@[i] < 4,
            (cx as int, cy as int) == walk_pos(*old(m), s0, dirs@, k as int),
            cx < m.width,
            cy < m.height,
            forall|i: int|
                0 <= i < m.tiles@.len() ==> #[trigger] m.tiles@[i] == GameTile::Floor || m.tiles@[i]
                    == old(m).tiles@[i],
            forall|i: int|
                0 <= i < m.tiles@.len() && #[trigger] m.tiles@[i] != old(m).tiles@[i]
                    ==> walk_offsets(*old(m), s0, dirs@, (k + 1) as nat).contains(i),
            forall|x: int, y: int|
                #![trigger m.tile(x, y)]
                m.in_bounds(x, y) ==> m.tile(x, y) == if exists|j: int|
                    0 <= j <= k && #[trigger] walk_pos(*old(m), s0, dirs@, j) == (x, y) {
                    GameTile::Floor
                } else {
                    old(m).tile(x, y)
                },
        decreases dirs@.len() - k,
    {
        let (dx, dy) = direction_step(dirs[k]);
        let nx = cx as i64 + dx;
        let ny = cy as i64 + dy;
        let ghost before = *m;
        if nx >= 0 && ny >= 0 && nx < m.width as i64 && ny < m.height as i64 {
            cx = nx as usize;
            cy = ny as usize;
            m.set_tile(cx, cy, GameTile::Floor);
            assert forall|i: int| 0 <= i < m.tiles@.len() implies #[trigger] m.tiles@[i]
                == GameTile::Floor || m.tiles@[i] == old(m).tiles@[i] by {
                let j = before.idx(cx as int, cy as int);
                crate::grid::lemma_cell_index_bounds(before.width as int, before.height as int, cx as int, cy as int);
                assert(m.tiles@ == before.tiles@.update(j, GameTile::Floor));
                if i != j {
                    assert(before.tiles@.update(j, GameTile::Floor)[i] == before.tiles@[i]);
                }
            }
        }
        proof {
            let q = walk_pos(*old(m), s0, dirs@, k + 1);
            assert(q == (cx as int, cy as int));
            lemma_walk_offsets_grow(*old(m), s0, dirs@, (k + 2) as nat, (k + 1) as nat);
            assert forall|i: int|
                0 <= i < m.tiles@.len() && #[trigger] m.tiles@[i] != old(m).tiles@[i] implies walk_offsets(
                *old(m),
                s0,
                dirs@,
                (k + 2) as nat,
            ).contains(i) by {
                if m.tiles@[i] == before.tiles@[i] {
                    assert(walk_offsets(*old(m), s0, dirs@, (k + 1) as nat).contains(i));
                } else {
                    crate::grid::lemma_cell_index_bounds(before.width as int, before.height as int, cx as int, cy as int);
                    let j = before.idx(cx as int, cy as int);
                    assert(m.tiles@ == before.tiles@.update(j, GameTile::Floor));
                    if i != j {
                        assert(before.tiles@.update(j, GameTile::Floor)[i] == before.tiles@[i]);
                    }
                    assert(old(m).idx(q.0, q.1) == j);
                }
            }
            assert forall|x: int, y: int|
                #![trigger m.tile(x, y)]
                m.in_bounds(x, y) implies m.tile(x, y) == if exists|j: int|
                    0 <= j <= k + 1 && #[trigger] walk_pos(*old(m), s0, dirs@, j) == (x, y) {
                    GameTile::Floor
                } else {
                    old(m).tile(x, y)
                } by {
                assert(before.tile(x, y) == if exists|j: int|
                    0 <= j <= k && #[trigger] walk_pos(*old(m), s0, dirs@, j) == (x, y) {
                    GameTile::Floor
                } else {
                    old(m).tile(x, y)
                });
                if exists|j: int| 0 <= j <= k + 1 && #[trigger] walk_pos(*old(m), s0, dirs@, j) == (x, y) {
                    let j = choose|j: int| 0 <= j <= k + 1 && #[trigger] walk_pos(*old(m), s0, dirs@, j) == (x, y);
                    if j <= k {
                        assert(exists|j2: int| 0 <= j2 <= k && #[trigger] walk_pos(*old(m), s0, dirs@, j2) == (x, y));
                    }
                } else {
                    assert(!(exists|j2: int| 0 <= j2 <= k && #[trigger] walk_pos(*old(m), s0, dirs@, j2) == (x, y)));
                    assert(walk_pos(*old(m), s0, dirs@, k + 1) != (x, y));
                    if walk_pos(*old(m), s0, dirs@, k as int) == (x, y) {
                        assert(false);
                    }
                }
                if x == q.0 && y == q.1 {
                    assert(walk_pos(*old(m), s0, dirs@, k + 1) == (x, y));
                    if q == walk_pos(*old(m), s0, dirs@, k as int) {
                        assert(before.tile(x, y) == GameTile::Floor);
                    }
                }
            }
        }
        k = k + 1;
    }
}

impl DrunkardsWalkMapGenerator {
    pub fn new(target_num_drunkards: usize, drunkard_lifetime: usize, start_tile: GameTile) -> (r:
        MapGenerator)
        ensures
            r == MapGenerator::Drunkards(
                DrunkardsWalkMapGenerator { target_num_drunkards, drunkard_lifetime, start_tile },
            ),
    {
        MapGenerator::Drunkards(
            DrunkardsWalkMapGenerator { target_num_drunkards, drunkard_lifetime, start_tile },
        )
    }

    /// What holds of every successful walk from `in_map` to `r`: the frame is
    /// kept, no floor is lost, every changed cell became floor, two snapshots
    /// were taken per walker, along the new snapshots and on to the final
    /// tiles the floor only grows, the last snapshot is the final tiles, at
    /// most `target_num_drunkards * (drunkard_lifetime + 1)` cells changed,
    /// and with at least one walker some cell of the start kind became floor.
    pub open spec fn walked(self, in_map: GameMap, r: GameMap) -> bool {
        let n = in_map.history_view().len();
        let h = r.history_view();
        &&& r.wf()
        &&& r.same_frame(in_map)
        &&& h.len() == n + 2 * self.target_num_drunkards
        &&& h.subrange(0, n as int) == in_map.history_view()
        &&& forall|i: int|
            0 <= i < r.tiles@.len() ==> #[trigger] r.tiles@[i] == GameTile::Floor || r.tiles@[i]
                == in_map.tiles@[i]
        &&& floors_grow(in_map.tiles@, r.tiles@)
        &&& forall|j: int| n <= j < h.len() ==> floors_grow(in_map.tiles@, #[trigger] h[j])
        &&& forall|j: int, k: int| n <= j < k < h.len() ==> floors_grow(#[trigger] h[j], #[trigger] h[k])
        &&& forall|j: int| n <= j < h.len() ==> floors_grow(#[trigger] h[j], r.tiles@)
        &&& self.target_num_drunkards > 0 ==> h.last() == r.tiles@
        &&& exists|c: Set<int>|
            c.finite() && c.len() <= self.target_num_drunkards * (self.drunkard_lifetime + 1)
                && forall|i: int|
                0 <= i < r.tiles@.len() && #[trigger] r.tiles@[i] != in_map.tiles@[i] ==> c.contains(i)
        &&& self.target_num_drunkards > 0 ==> exists|x: int, y: int|
            in_map.in_bounds(x, y) && #[trigger] in_map.tile(x, y) == self.start_tile && r.tile(x, y)
                == GameTile::Floor
    }

    /// Runs `target_num_drunkards` walkers. Each starts on a cell of
    /// `start_tile` drawn uniformly (failing with `NoCandidateTiles` when
    /// there is none), turns it to floor and takes a snapshot; then, for
    /// `drunkard_lifetime` steps, it picks one of the four cardinal
    /// directions uniformly, ignores a step that would leave the grid, and
    /// turns each cell it enters to floor (see `walk`); a snapshot follows
    /// each walker.
    pub fn generate_map(&self, in_map: GameMap, rng: &mut GameRNG) -> (r: Result<GameMap, MapError>)
        requires
            in_map.wf(),
        ensures
            r is Err ==> r == Err::<GameMap, MapError>(MapError::NoCandidateTiles),
            r matches Ok(m) ==> self.walked(in_map, m),
            self.target_num_drunkards > 0 && !has_kind(in_map, self.start_tile) ==> r is Err,
            self.target_num_drunkards == 0 || (self.start_tile == GameTile::Floor && has_kind(
                in_map,
                GameTile::Floor,
            )) ==> r is Ok,
            self.target_num_drunkards <= 1 && has_kind(in_map, self.start_tile) ==> r is Ok,
            kind_offsets(in_map.tiles@, self.start_tile).len() > (self.target_num_drunkards - 1) * (
            self.drunkard_lifetime + 1) ==> r is Ok,
    {
        let mut m = in_map;
        let ghost start = m;
        let ghost n0 = start.history_view().len();
        let ghost mut changed: Set<int> = Set::empty();
        let mut i: usize = 0;
        while i < self.target_num_drunkards
            invariant
                m.wf(),
                m.same_frame(start),
                start.wf(),
                start == in_map,
                n0 == start.history_view().len(),
                i <= self.target_num_drunkards,
                m.history_view().len() == n0 + 2 * i,
                m.history_view().subrange(0, n0 as int) == start.history_view(),
                forall|k: int|
                    0 <= k < m.tiles@.len() ==> #[trigger] m.tiles@[k] == GameTile::Floor
                        || m.tiles@[k] == start.tiles@[k],
                floors_grow(start.tiles@, m.tiles@),
                forall|j: int|
                    n0 <= j < m.history_view().len() ==> floors_grow(
                        start.tiles@,
                        #[trigger] m.history_view()[j],
                    ),
                forall|j: int, k: int|
                    n0 <= j < k < m.history_view().len() ==> floors_grow(
                        #[trigger] m.history_view()[j],
                        #[trigger] m.history_view()[k],
                    ),
                forall|j: int|
                    n0 <= j < m.history_view().len() ==> floors_grow(
                        #[trigger] m.history_view()[j],
                        m.tiles@,
                    ),
                i > 0 && self.start_tile == GameTile::Floor ==> exists|x: int, y: int|
                    m.in_bounds(x, y) && #[trigger] m.tile(x, y) == GameTile::Floor,
                i == 0 ==> m.tiles@ == start.tiles@,
                i > 0 ==> exists|x: int, y: int|
                    start.in_bounds(x, y) && #[trigger] start.tile(x, y) == self.start_tile
                        && m.tile(x, y) == GameTile::Floor,
                i > 0 ==> m.history_view().last() == m.tiles@,
                changed.finite(),
                changed.len() <= i * (self.drunkard_lifetime + 1),
                forall|j: int|
                    0 <= j < m.tiles@.len() && #[trigger] m.tiles@[j] != start.tiles@[j] ==> changed.contains(j),
            decreases self.target_num_drunkards - i,
        {
            let walls = m.get_tile_pos_by_type(self.start_tile);
            if walls.len() == 0 {
                proof {
                    if self.start_tile == GameTile::Floor && exists|x: int, y: int|
                        in_map.in_bounds(x, y) && #[trigger] in_map.tile(x, y) == GameTile::Floor {
                        let (x, y) = choose|x: int, y: int|
                            in_map.in_bounds(x, y) && #[trigger] in_map.tile(x, y) == GameTile::Floor;
                        crate::grid::lemma_cell_index_bounds(m.width as int, m.height as int, x, y);
                        assert(start.tiles@[start.idx(x, y)] == GameTile::Floor);
                        assert(m.tiles@[m.idx(x, y)] == GameTile::Floor);
                        assert(m.tile(x, y) == GameTile::Floor);
                        assert(walls@.contains((x as usize, y as usize)));
                        assert(false);
                    }
                    if self.target_num_drunkards <= 1 && has_kind(in_map, self.start_tile) {
                        let (x, y) = choose|x: int, y: int|
                            in_map.in_bounds(x, y) && #[trigger] in_map.tile(x, y) == self.start_tile;
                        assert(m.tile(x, y) == self.start_tile);
                        assert(walls@.contains((x as usize, y as usize)));
                        assert(false);
                    }
                    let kset = kind_offsets(in_map.tiles@, self.start_tile);
                    if kset.len() > (self.target_num_drunkards - 1) * (self.drunkard_lifetime + 1) {
                        assert(i * (self.drunkard_lifetime + 1) <= (self.target_num_drunkards - 1) * (
                        self.drunkard_lifetime + 1)) by (nonlinear_arith)
                            requires
                                i + 1 <= self.target_num_drunkards,
                        ;
                        vstd::set_lib::lemma_int_range(0, m.tiles@.len() as int);
                        assert(kset.subset_of(vstd::set_lib::set_int_range(0, m.tiles@.len() as int)));
                        vstd::set_lib::lemma_len_subset(kset, vstd::set_lib::set_int_range(0, m.tiles@.len() as int));
                        if kset.subset_of(changed) {
                            vstd::set_lib::lemma_len_subset(kset, changed);
                        }
                        let j = choose|j: int| kset.contains(j) && !changed.contains(j);
                        let w = m.width as int;
                        let x = j % w;
                        let y = j / w;
                        vstd::arithmetic::div_mod::lemma_fundamental_div_mod(j, w);
                        vstd::arithmetic::div_mod::lemma_mod_bound(j, w);
                        vstd::arithmetic::div_mod::lemma_div_pos_is_pos(j, w);
                        assert(y < m.height as int) by (nonlinear_arith)
                            requires
                                j == w * y + x,
                                0 <= x,
                                j < w * m.height,
                                w > 0,
                        ;
                        assert(crate::grid::cell_index(w, x, y) == j);
                        assert(m.tiles@[j] == start.tiles@[j]);
                        assert(m.tile(x, y) == self.start_tile);
                        assert(walls@.contains((x as usize, y as usize)));
                        assert(false);
                    }
                }
                return Err(MapError::NoCandidateTiles);
            }
            let ghost m0 = m;
            let ghost wit: (int, int) = if i > 0 {
                choose|x: int, y: int|
                    start.in_bounds(x, y) && #[trigger] start.tile(x, y) == self.start_tile && m.tile(x, y)
                        == GameTile::Floor
            } else {
                (0, 0)
            };
            let k = rng.rand_index(walls.len());
            let (wx, wy) = walls[k];
            assert(m.tile(wx as int, wy as int) == self.start_tile);
            assert(i > 0 || start.tile(wx as int, wy as int) == self.start_tile);
            let idx = m.xy_idx(wx, wy);
            m.tiles.set(idx, GameTile::Floor);
            m.snapshot();
            assert(m.history_view().subrange(0, n0 as int) =~= start.history_view());
            let mut dirs: Vec<i32> = Vec::new();
            let mut step: usize = 0;
            while step < self.drunkard_lifetime
                invariant
                    step <= self.drunkard_lifetime,
                    dirs@.len() == step,
                    forall|j: int| 0 <= j < dirs@.len() ==> 0 <= #[trigger] dirs@[j] < 4,
                decreases self.drunkard_lifetime - step,
            {
                let d = rng.rand_range(0..4);
                dirs.push(d);
                step = step + 1;
            }
            let ghost pre = m;
            walk(&mut m, (wx, wy), &dirs);
            proof {
                let wo = walk_offsets(pre, (wx as int, wy as int), dirs@, (dirs@.len() + 1) as nat);
                lemma_walk_offsets_size(pre, (wx as int, wy as int), dirs@, (dirs@.len() + 1) as nat);
                lemma_walk_offsets_grow(pre, (wx as int, wy as int), dirs@, (dirs@.len() + 1) as nat, 0);
                vstd::set_lib::lemma_len_union(changed, wo);
                crate::grid::lemma_cell_index_bounds(m.width as int, m.height as int, wx as int, wy as int);
                assert forall|j: int|
                    0 <= j < m.tiles@.len() && #[trigger] m.tiles@[j] != start.tiles@[j] implies changed.union(
                    wo,
                ).contains(j) by {
                    if m.tiles@[j] != pre.tiles@[j] {
                        assert(wo.contains(j));
                    } else if pre.tiles@[j] != m0.tiles@[j] {
                        assert(j == m0.idx(wx as int, wy as int));
                        assert(walk_pos(pre, (wx as int, wy as int), dirs@, 0) == (wx as int, wy as int));
                        assert(wo.contains(j));
                    } else {
                        assert(changed.contains(j));
                    }
                }
                assert(i * (self.drunkard_lifetime + 1) + (self.drunkard_lifetime + 1) == (i + 1) * (
                self.drunkard_lifetime + 1)) by (nonlinear_arith);
                changed = changed.union(wo);
            }
            assert(floors_grow(pre.tiles@, m.tiles@));
            assert(m.tile(wx as int, wy as int) == GameTile::Floor) by {
                assert(walk_pos(pre, (wx as int, wy as int), dirs@, 0) == (wx as int, wy as int));
            }
            m.snapshot();
            assert(m.history_view().subrange(0, n0 as int) =~= start.history_view());
            assert(m.in_bounds(wx as int, wy as int) && m.tile(wx as int, wy as int) == GameTile::Floor);
            proof {
                if i > 0 {
                    let (x, y) = wit;
                    crate::grid::lemma_cell_index_bounds(m.width as int, m.height as int, x, y);
                    assert(m0.tiles@[m0.idx(x, y)] == GameTile::Floor);
                    assert(pre.tiles@[m0.idx(x, y)] == GameTile::Floor);
                    assert(m.tile(x, y) == GameTile::Floor);
                }
            }
            i = i + 1;
        }
        assert forall|j: int|
            0 <= j < m.tiles@.len() && #[trigger] m.tiles@[j] != in_map.tiles@[j] implies changed.contains(j) by {
        }
        Ok(m)
    }

    /// This stage proposes no spawn position.
    pub fn get_player_spawn(&self, in_map: &GameMap, rng: &mut GameRNG) -> (r: Option<Position>)
        ensures
            r is None,
    {
        None
    }
}

/// Along the snapshots that a walk takes, and on to its final tiles, the
/// number of floor cells never decreases.
pub proof fn law_walk_floor_count_never_decreases(
    g: DrunkardsWalkMapGenerator,
    in_map: GameMap,
    r: GameMap,
)
    requires
        g.walked(in_map, r),
    ensures
        forall|j: int, k: int|
            in_map.history_view().len() <= j < k < r.history_view().len() ==> floor_count(
                #[trigger] r.history_view()[j],
            ) <= floor_count(#[trigger] r.history_view()[k]),
        forall|j: int|
            in_map.history_view().len() <= j < r.history_view().len() ==> floor_count(
                in_map.tiles@,
            ) <= floor_count(#[trigger] r.history_view()[j]) && floor_count(r.history_view()[j])
                <= floor_count(r.tiles@),
{
    assert forall|j: int, k: int|
        in_map.history_view().len() <= j < k < r.history_view().len() implies floor_count(
        #[trigger] r.history_view()[j],
    ) <= floor_count(#[trigger] r.history_view()[k]) by {
        lemma_floor_count_grows(r.history_view()[j], r.history_view()[k]);
    }
    assert forall|j: int|
        in_map.history_view().len() <= j < r.history_view().len() implies floor_count(
        in_map.tiles@,
    ) <= floor_count(#[trigger] r.history_view()[j]) && floor_count(r.history_view()[j])
        <= floor_count(r.tiles@) by {
        lemma_floor_count_grows(in_map.tiles@, r.history_view()[j]);
        lemma_floor_count_grows(r.history_view()[j], r.tiles@);
    }
}

} // verus!
