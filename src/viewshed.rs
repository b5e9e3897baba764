//! Field of view: which cells an observer sees, by casting rays outward
//! from the middle of its cell and stopping each at the first opaque cell.
use vstd::prelude::*;

use crate::geometry::Position;
use crate::grid::{cell_index, lemma_cell_index_bounds, lemma_cell_index_injective, GameMap};
use crate::tile::tile_opaque;

verus! {

/// One cell in fixed point: coordinates are kept in units of 1/65536 cell.
pub const CELL_SCALE: i64 = 65536;

/// The number of rays cast, one every 3 degrees.
pub const RAY_COUNT: usize = 120;

/// `cos(3k degrees)` in units of 1/65536, rounded, for `k` in `0 ..= 30`.
pub open spec fn cos_step(k: int) -> int {
    if k == 0 {
        65536
    } else if k == 1 {
        65446
    } else if k == 2 {
        65177
    } else if k == 3 {
        64729
    } else if k == 4 {
        64104
    } else if k == 5 {
        63303
    } else if k == 6 {
        62328
    } else if k == 7 {
        61183
    } else if k == 8 {
        59870
    } else if k == 9 {
        58393
    } else if k == 10 {
        56756
    } else if k == 11 {
        54963
    } else if k == 12 {
        53020
    } else if k == 13 {
        50931
    } else if k == 14 {
        48703
    } else if k == 15 {
        46341
    } else if k == 16 {
        43852
    } else if k == 17 {
        41243
    } else if k == 18 {
        38521
    } else if k == 19 {
        35693
    } else if k == 20 {
        32768
    } else if k == 21 {
        29753
    } else if k == 22 {
        26656
    } else if k == 23 {
        23486
    } else if k == 24 {
        20252
    } else if k == 25 {
        16962
    } else if k == 26 {
        13626
    } else if k == 27 {
        10252
    } else if k == 28 {
        6850
    } else if k == 29 {
        3430
    } else {
        0
    }
}

fn cos_step_exec(k: usize) -> (r: i64)
    requires
        k <= 30,
    ensures
        r == cos_step(k as int),
        0 <= r <= CELL_SCALE,
{
    if k == 0 {
        65536
    } else if k == 1 {
        65446
    } else if k == 2 {
        65177
    } else if k == 3 {
        64729
    } else if k == 4 {
        64104
    } else if k == 5 {
        63303
    } else if k == 6 {
        62328
    } else if k == 7 {
        61183
    } else if k == 8 {
        59870
    } else if k == 9 {
        58393
    } else if k == 10 {
        56756
    } else if k == 11 {
        54963
    } else if k == 12 {
        53020
    } else if k == 13 {
        50931
    } else if k == 14 {
        48703
    } else if k == 15 {
        46341
    } else if k == 16 {
        43852
    } else if k == 17 {
        41243
    } else if k == 18 {
        38521
    } else if k == 19 {
        35693
    } else if k == 20 {
        32768
    } else if k == 21 {
        29753
    } else if k == 22 {
        26656
    } else if k == 23 {
        23486
    } else if k == 24 {
        20252
    } else if k == 25 {
        16962
    } else if k == 26 {
        13626
    } else if k == 27 {
        10252
    } else if k == 28 {
        6850
    } else if k == 29 {
        3430
    } else {
        0
    }
}

/// The step of ray `r` (at `3r` degrees) per unit of distance, in units of
/// 1/65536 cell: the cosine and sine of its angle.
pub open spec fn ray_dir(r: int) -> (int, int) {
    let q = r / 30;
    let k = r % 30;
    if q == 0 {
        (cos_step(k), cos_step(30 - k))
    } else if q == 1 {
        (-cos_step(30 - k), cos_step(k))
    } else if q == 2 {
        (-cos_step(k), -cos_step(30 - k))
    } else {
        (cos_step(30 - k), -cos_step(k))
    }
}

fn ray_dir_exec(r: usize) -> (d: (i64, i64))
    requires
        r < RAY_COUNT,
    ensures
        d.0 == ray_dir(r as int).0,
        d.1 == ray_dir(r as int).1,
        -CELL_SCALE <= d.0 <= CELL_SCALE,
        -CELL_SCALE <= d.1 <= CELL_SCALE,
{
    let q = r / 30;
    let k = r % 30;
    let c = cos_step_exec(k);
    let s = cos_step_exec(30 - k);
    if q == 0 {
        (c, s)
    } else if q == 1 {
        (-s, c)
    } else if q == 2 {
        (-c, -s)
    } else {
        (s, -c)
    }
}

/// The cell that sample `j` of ray `r` from `origin` falls in: the point
/// `j` steps along the ray from the middle of the origin's cell.
pub open spec fn ray_cell(origin: Position, r: int, j: int) -> (int, int) {
    let d = ray_dir(r);
    let s = CELL_SCALE as int;
    ((origin.x * s + s / 2 + j * d.0) / s, (origin.y * s + s / 2 + j * d.1) / s)
}

/// Samples `0 .. j` of ray `r` all fall inside the grid on cells that let
/// sight through.
pub open spec fn ray_clear(map: GameMap, origin: Position, r: int, j: int) -> bool {
    forall|k: int|
        0 <= k < j ==> map.in_bounds(#[trigger] ray_cell(origin, r, k).0, ray_cell(origin, r, k).1)
            && !tile_opaque(map.tile(ray_cell(origin, r, k).0, ray_cell(origin, r, k).1))
}

/// Sample `j` of ray `r` is seen: it is within `max_distance` samples, it
/// falls inside the grid, and every earlier sample of the ray let sight
/// through. The first opaque cell along a ray is seen; nothing after it is.
pub open spec fn ray_sees(map: GameMap, origin: Position, max_distance: int, r: int, j: int) -> bool {
    &&& 0 <= r < RAY_COUNT
    &&& 0 <= j < max_distance
    &&& map.in_bounds(ray_cell(origin, r, j).0, ray_cell(origin, r, j).1)
    &&& ray_clear(map, origin, r, j)
}

/// `q` is the origin or the cell of a seen sample of one of the first `n` rays.
pub open spec fn visible_upto(map: GameMap, origin: Position, max_distance: int, n: int, q: Position) -> bool {
    ||| q == origin
    ||| exists|r: int, j: int|
        0 <= r < n && #[trigger] ray_sees(map, origin, max_distance, r, j) && ray_cell(origin, r, j)
            == (q.x as int, q.y as int)
}

/// `q` is visible from `origin` within `max_distance` samples per ray.
pub open spec fn visible(map: GameMap, origin: Position, max_distance: int, q: Position) -> bool {
    visible_upto(map, origin, max_distance, RAY_COUNT as int, q)
}

/// The cell of sample `j` of ray `r` when it falls inside the grid.
fn sample_cell(map: &GameMap, origin: Position, r: usize, j: u16) -> (c: Option<(usize, usize)>)
    requires
        map.wf(),
        r < RAY_COUNT,
    ensures
        c is Some <==> map.in_bounds(ray_cell(origin, r as int, j as int).0, ray_cell(origin, r as int, j as int).1),
        c matches Some(p) ==> p.0 == ray_cell(origin, r as int, j as int).0 && p.1 == ray_cell(
            origin,
            r as int,
            j as int,
        ).1,
{
    let d = ray_dir_exec(r);
    let jj = j as i64;
    assert(-CELL_SCALE * 65535 <= jj * d.0 <= CELL_SCALE * 65535) by (nonlinear_arith)
        requires
            0 <= jj <= 65535,
            -CELL_SCALE <= d.0 <= CELL_SCALE,
    ;
    assert(-CELL_SCALE * 65535 <= jj * d.1 <= CELL_SCALE * 65535) by (nonlinear_arith)
        requires
            0 <= jj <= 65535,
            -CELL_SCALE <= d.1 <= CELL_SCALE,
    ;
    let px = origin.x as i64 * CELL_SCALE + CELL_SCALE / 2 + jj * d.0;
    let py = origin.y as i64 * CELL_SCALE + CELL_SCALE / 2 + jj * d.1;
    if px < 0 || py < 0 {
        return None;
    }
    let cx = px / CELL_SCALE;
    let cy = py / CELL_SCALE;
    if cx < map.width as i64 && cy < map.height as i64 {
        Some((cx as usize, cy as usize))
    } else {
        None
    }
}

/// The position of an in-grid cell.
pub open spec fn pos_of(c: (int, int)) -> Position {
    Position { x: c.0 as i32, y: c.1 as i32 }
}

/// The cells visible from `origin`: the origin itself and, for each of the
/// 120 rays cast every 3 degrees from the middle of its cell, the cells
/// of its first `max_distance` unit steps up to and including the first
/// opaque cell; a ray ends at its first step outside the grid. Each
/// visible cell is listed once and is marked as seen on the map, which
/// never un-sees a cell.
pub fn compute_visible(map: &mut GameMap, origin: Position, max_distance: u16) -> (res: Vec<Position>)
    requires
        old(map).wf(),
        old(map).in_bounds(origin.x as int, origin.y as int),
    ensures
        final(map).wf(),
        final(map).width == old(map).width,
        final(map).height == old(map).height,
        final(map).tiles@ == old(map).tiles@,
        final(map).blocking_tiles@ == old(map).blocking_tiles@,
        final(map).history@ == old(map).history@,
        forall|q: Position| res@.contains(q) <==> visible(*old(map), origin, max_distance as int, q),
        res@.no_duplicates(),
        forall|x: int, y: int|
            #![trigger final(map).seen(x, y)]
            final(map).in_bounds(x, y) ==> (final(map).seen(x, y) <==> old(map).seen(x, y)
                || res@.contains(Position { x: x as i32, y: y as i32 })),
{
    let res = visible_cells(map, origin, max_distance);
    mark_seen(map, &res);
    res
}

/// Sets the seen flag of every listed cell.
fn mark_seen(map: &mut GameMap, cells: &Vec<Position>)
    requires
        old(map).wf(),
        forall|i: int|
            0 <= i < cells@.len() ==> old(map).in_bounds(#[trigger] cells@[i].x as int, cells@[i].y as int),
    ensures
        final(map).wf(),
        final(map).width == old(map).width,
        final(map).height == old(map).height,
        final(map).tiles@ == old(map).tiles@,
        final(map).blocking_tiles@ == old(map).blocking_tiles@,
        final(map).history@ == old(map).history@,
        forall|x: int, y: int|
            #![trigger final(map).seen(x, y)]
            final(map).in_bounds(x, y) ==> (final(map).seen(x, y) <==> old(map).seen(x, y)
                || cells@.contains(Position { x: x as i32, y: y as i32 })),
{
    let mut i: usize = 0;
    while i < cells.len()
        invariant
            map.wf(),
            map.width == old(map).width,
            map.height == old(map).height,
            map.tiles@ == old(map).tiles@,
            map.blocking_tiles@ == old(map).blocking_tiles@,
            map.history@ == old(map).history@,
            i <= cells@.len(),
            forall|k: int|
                0 <= k < cells@.len() ==> map.in_bounds(#[trigger] cells@[k].x as int, cells@[k].y as int),
            forall|x: int, y: int|
                #![trigger map.seen(x, y)]
                map.in_bounds(x, y) ==> (map.seen(x, y) <==> old(map).seen(x, y) || exists|k: int|
                    0 <= k < i && #[trigger] cells@[k] == Position { x: x as i32, y: y as i32 }),
        decreases cells@.len() - i,
    {
        let p = cells[i];
        let k = map.xy_idx(p.x as usize, p.y as usize);
        let ghost before = *map;
        map.viewed_tiles.set(k, true);
        assert forall|x: int, y: int|
            #![trigger map.seen(x, y)]
            map.in_bounds(x, y) implies (map.seen(x, y) <==> old(map).seen(x, y) || exists|k2: int|
                0 <= k2 < i + 1 && #[trigger] cells@[k2] == Position { x: x as i32, y: y as i32 }) by {
            lemma_cell_index_bounds(map.width as int, map.height as int, x, y);
            if map.idx(x, y) == k {
                lemma_cell_index_injective(map.width as int, x, y, p.x as int, p.y as int);
                assert(cells@[i as int] == Position { x: x as i32, y: y as i32 });
            } else {
                assert(map.seen(x, y) == before.seen(x, y));
                if cells@[i as int] == (Position { x: x as i32, y: y as i32 }) {
                    assert(map.idx(x, y) == k);
                }
                if exists|k2: int|
                    0 <= k2 < i + 1 && #[trigger] cells@[k2] == (Position { x: x as i32, y: y as i32 }) {
                    let k2 = choose|k2: int|
                        0 <= k2 < i + 1 && #[trigger] cells@[k2] == Position { x: x as i32, y: y as i32 };
                    assert(k2 < i);
                }
            }
        }
        i = i + 1;
    }
    assert forall|x: int, y: int|
        #![trigger map.seen(x, y)]
        map.in_bounds(x, y) implies (map.seen(x, y) <==> old(map).seen(x, y) || cells@.contains(
            Position { x: x as i32, y: y as i32 },
        )) by {
        if cells@.contains(Position { x: x as i32, y: y as i32 }) {
            let k2 = choose|k2: int|
                0 <= k2 < cells@.len() && cells@[k2] == Position { x: x as i32, y: y as i32 };
            assert(cells@[k2] == Position { x: x as i32, y: y as i32 });
        }
    }
}

/// Sample `j` of ray `r` is seen and falls on `q`.
pub open spec fn sample_on(map: GameMap, origin: Position, max_distance: int, r: int, j: int, q: Position) -> bool {
    ray_sees(map, origin, max_distance, r, j) && ray_cell(origin, r, j) == (q.x as int, q.y as int)
}

/// The visible cells, each once, without marking them seen.
fn visible_cells(map: &GameMap, origin: Position, max_distance: u16) -> (res: Vec<Position>)
    requires
        map.wf(),
        map.in_bounds(origin.x as int, origin.y as int),
    ensures
        forall|q: Position| res@.contains(q) <==> visible(*map, origin, max_distance as int, q),
        res@.no_duplicates(),
        forall|i: int| 0 <= i < res@.len() ==> map.in_bounds(#[trigger] res@[i].x as int, res@[i].y as int),
{
    let ghost dist = max_distance as int;
    let n = map.width * map.height;
    let mut mark: Vec<bool> = vec![false; n];
    let mut res: Vec<Position> = Vec::new();
    let oi = map.xy_idx(origin.x as usize, origin.y as usize);
    mark.set(oi, true);
    res.push(origin);
    proof {
        assert forall|x: int, y: int| map.in_bounds(x, y) implies (#[trigger] mark@[cell_index(
            map.width as int,
            x,
            y,
        )] <==> res@.contains(Position { x: x as i32, y: y as i32 })) by {
            lemma_cell_index_bounds(map.width as int, map.height as int, x, y);
            if cell_index(map.width as int, x, y) == oi {
                lemma_cell_index_injective(map.width as int, x, y, origin.x as int, origin.y as int);
                assert(res@[0] == Position { x: x as i32, y: y as i32 });
            } else {
                assert(!mark@[cell_index(map.width as int, x, y)]);
                if res@.contains(Position { x: x as i32, y: y as i32 }) {
                    let k = choose|k: int| 0 <= k < res@.len() && res@[k] == Position { x: x as i32, y: y as i32 };
                    assert(k == 0);
                    assert(res@[0] == Position { x: x as i32, y: y as i32 });
                }
            }
        }
        assert forall|q: Position| res@.contains(q) <==> visible_upto(*map, origin, dist, 0, q) by {
            if res@.contains(q) {
                assert(res@[0] == q);
            }
            if q == origin {
                assert(res@[0] == q);
            }
        }
    }
    let mut r: usize = 0;
    while r < RAY_COUNT
        invariant
            map.wf(),
            n == map.width * map.height,
            dist == max_distance as int,
            mark@.len() == n,
            r <= RAY_COUNT,
            res@.no_duplicates(),
            forall|i: int| 0 <= i < res@.len() ==> map.in_bounds(#[trigger] res@[i].x as int, res@[i].y as int),
            forall|x: int, y: int|
                map.in_bounds(x, y) ==> (#[trigger] mark@[cell_index(map.width as int, x, y)]
                    <==> res@.contains(Position { x: x as i32, y: y as i32 })),
            forall|q: Position| res@.contains(q) <==> visible_upto(*map, origin, dist, r as int, q),
        decreases RAY_COUNT - r,
    {
        let mut j: u16 = 0;
        let mut stopped = false;
        while j < max_distance && !stopped
            invariant
                map.wf(),
                n == map.width * map.height,
                dist == max_distance as int,
                mark@.len() == n,
                r < RAY_COUNT,
                j <= max_distance,
                res@.no_duplicates(),
                forall|i: int| 0 <= i < res@.len() ==> map.in_bounds(#[trigger] res@[i].x as int, res@[i].y as int),
                forall|x: int, y: int|
                    map.in_bounds(x, y) ==> (#[trigger] mark@[cell_index(map.width as int, x, y)]
                        <==> res@.contains(Position { x: x as i32, y: y as i32 })),
                !stopped ==> ray_clear(*map, origin, r as int, j as int),
                stopped ==> forall|k: int| #[trigger] ray_sees(*map, origin, dist, r as int, k) ==> k < j,
                forall|q: Position|
                    res@.contains(q) <==> (visible_upto(*map, origin, dist, r as int, q) || exists|k: int|
                        0 <= k < j && #[trigger] sample_on(*map, origin, dist, r as int, k, q)),
            decreases max_distance - j,
        {
            let ghost jj = j as int;
            match sample_cell(map, origin, r, j) {
                None => {
                    stopped = true;
                    assert forall|k: int| #[trigger] ray_sees(*map, origin, dist, r as int, k) implies k < j + 1 by {
                        if k > jj {
                            assert(map.in_bounds(ray_cell(origin, r as int, jj).0, ray_cell(origin, r as int, jj).1));
                        }
                    }
                    assert forall|q: Position|
                        res@.contains(q) <==> (visible_upto(*map, origin, dist, r as int, q) || exists|k: int|
                            0 <= k < j + 1 && #[trigger] sample_on(*map, origin, dist, r as int, k, q)) by {
                        if exists|k: int| 0 <= k < j + 1 && #[trigger] sample_on(*map, origin, dist, r as int, k, q) {
                            let k = choose|k: int| 0 <= k < j + 1 && #[trigger] sample_on(*map, origin, dist, r as int, k, q);
                            assert(k != jj);
                        }
                    }
                },
                Some((cx, cy)) => {
                    let ci = map.xy_idx(cx, cy);
                    let p = Position { x: cx as i32, y: cy as i32 };
                    assert(ray_sees(*map, origin, dist, r as int, jj));
                    assert(sample_on(*map, origin, dist, r as int, jj, p));
                    if !mark[ci] {
                        let ghost prev = res@;
                        mark.set(ci, true);
                        res.push(p);
                        proof {
                            assert(!prev.contains(p));
                            assert forall|x: int, y: int| map.in_bounds(x, y) implies (#[trigger] mark@[cell_index(
                                map.width as int,
                                x,
                                y,
                            )] <==> res@.contains(Position { x: x as i32, y: y as i32 })) by {
                                lemma_cell_index_bounds(map.width as int, map.height as int, x, y);
                                if cell_index(map.width as int, x, y) == ci {
                                    lemma_cell_index_injective(map.width as int, x, y, cx as int, cy as int);
                                    assert(res@[prev.len() as int] == p);
                                } else {
                                    if res@.contains(Position { x: x as i32, y: y as i32 }) {
                                        let k = choose|k: int| 0 <= k < res@.len() && res@[k] == Position { x: x as i32, y: y as i32 };
                                        if k < prev.len() {
                                            assert(prev[k] == res@[k]);
                                        }
                                    }
                                    if prev.contains(Position { x: x as i32, y: y as i32 }) {
                                        let k = choose|k: int| 0 <= k < prev.len() && prev[k] == Position { x: x as i32, y: y as i32 };
                                        assert(res@[k] == prev[k]);
                                    }
                                }
                            }
                            assert forall|i: int| 0 <= i < res@.len() implies map.in_bounds(#[trigger] res@[i].x as int, res@[i].y as int) by {
                                if i < prev.len() {
                                    assert(res@[i] == prev[i]);
                                }
                            }
                            assert forall|q: Position|
                                res@.contains(q) <==> (visible_upto(*map, origin, dist, r as int, q) || exists|k: int|
                                    0 <= k < j + 1 && #[trigger] sample_on(*map, origin, dist, r as int, k, q)) by {
                                if res@.contains(q) {
                                    let k = choose|k: int| 0 <= k < res@.len() && res@[k] == q;
                                    if k < prev.len() {
                                        assert(prev[k] == res@[k]);
                                        assert(prev.contains(q));
                                    } else {
                                        assert(q == p);
                                    }
                                }
                                if exists|k: int| 0 <= k < j + 1 && #[trigger] sample_on(*map, origin, dist, r as int, k, q) {
                                    let k = choose|k: int| 0 <= k < j + 1 && #[trigger] sample_on(*map, origin, dist, r as int, k, q);
                                    if k == jj {
                                        assert(q == p);
                                        assert(res@[prev.len() as int] == q);
                                    } else {
                                        assert(prev.contains(q));
                                        let k2 = choose|k2: int| 0 <= k2 < prev.len() && prev[k2] == q;
                                        assert(res@[k2] == prev[k2]);
                                    }
                                }
                                if visible_upto(*map, origin, dist, r as int, q) {
                                    assert(prev.contains(q));
                                    let k2 = choose|k2: int| 0 <= k2 < prev.len() && prev[k2] == q;
                                    assert(res@[k2] == prev[k2]);
                                }
                            }
                        }
                    } else {
                        proof {
                            assert(res@.contains(p));
                            assert forall|q: Position|
                                res@.contains(q) <==> (visible_upto(*map, origin, dist, r as int, q) || exists|k: int|
                                    0 <= k < j + 1 && #[trigger] sample_on(*map, origin, dist, r as int, k, q)) by {
                                if exists|k: int| 0 <= k < j + 1 && #[trigger] sample_on(*map, origin, dist, r as int, k, q) {
                                    let k = choose|k: int| 0 <= k < j + 1 && #[trigger] sample_on(*map, origin, dist, r as int, k, q);
                                    if k == jj {
                                        assert(q == p);
                                    }
                                }
                            }
                        }
                    }
                    if map.tiles[ci].is_opaque() {
                        stopped = true;
                        assert forall|k: int| #[trigger] ray_sees(*map, origin, dist, r as int, k) implies k < j + 1 by {
                            if k > jj {
                                assert(!tile_opaque(map.tile(ray_cell(origin, r as int, jj).0, ray_cell(origin, r as int, jj).1)));
                            }
                        }
                    } else {
                        assert forall|k: int| 0 <= k < jj + 1 implies map.in_bounds(#[trigger] ray_cell(origin, r as int, k).0, ray_cell(origin, r as int, k).1)
                            && !tile_opaque(map.tile(ray_cell(origin, r as int, k).0, ray_cell(origin, r as int, k).1)) by {
                            if k < jj {
                                assert(ray_clear(*map, origin, r as int, jj));
                            }
                        }
                    }
                },
            }
            j = j + 1;
        }
        proof {
            assert forall|q: Position| res@.contains(q) <==> visible_upto(*map, origin, dist, r as int + 1, q) by {
                if visible_upto(*map, origin, dist, r as int + 1, q) && q != origin {
                    let (r2, k) = choose|r2: int, k: int|
                        0 <= r2 < r + 1 && #[trigger] ray_sees(*map, origin, dist, r2, k) && ray_cell(origin, r2, k)
                            == (q.x as int, q.y as int);
                    if r2 == r {
                        assert(k < j);
                        assert(sample_on(*map, origin, dist, r as int, k, q));
                    } else {
                        assert(visible_upto(*map, origin, dist, r as int, q));
                    }
                }
                if res@.contains(q) && !visible_upto(*map, origin, dist, r as int, q) {
                    let k = choose|k: int| 0 <= k < j && #[trigger] sample_on(*map, origin, dist, r as int, k, q);
                    assert(ray_sees(*map, origin, dist, r as int, k));
                }
                if visible_upto(*map, origin, dist, r as int, q) && q != origin {
                    let (r2, k) = choose|r2: int, k: int|
                        0 <= r2 < r && #[trigger] ray_sees(*map, origin, dist, r2, k) && ray_cell(origin, r2, k)
                            == (q.x as int, q.y as int);
                    assert(0 <= r2 < r + 1);
                }
            }
        }
        r = r + 1;
    }
    res
}

/// What an observer sees: how far, the cells visible from where it stood
/// when last updated, and whether it moved since.
pub struct Viewshed {
    pub dirty: bool,
    pub distance: u16,
    pub visible_tiles: Vec<Position>,
}

impl Viewshed {
    /// Recomputes the visible cells from `position`, marks them seen on the
    /// map, and clears the moved flag.
    pub fn update(&mut self, map: &mut GameMap, position: Position)
        requires
            old(map).wf(),
            old(map).in_bounds(position.x as int, position.y as int),
        ensures
            !final(self).dirty,
            final(self).distance == old(self).distance,
            forall|q: Position| #[trigger] final(self).visible_tiles@.contains(q) <==> visible(
                *old(map),
                position,
                old(self).distance as int,
                q,
            ),
            final(self).visible_tiles@.no_duplicates(),
            final(map).wf(),
            final(map).width == old(map).width,
            final(map).height == old(map).height,
            final(map).tiles@ == old(map).tiles@,
            final(map).blocking_tiles@ == old(map).blocking_tiles@,
            final(map).history@ == old(map).history@,
            forall|x: int, y: int|
                #![trigger final(map).seen(x, y)]
                final(map).in_bounds(x, y) ==> (final(map).seen(x, y) <==> old(map).seen(x, y)
                    || final(self).visible_tiles@.contains(Position { x: x as i32, y: y as i32 })),
    {
        self.visible_tiles = compute_visible(map, position, self.distance);
        self.dirty = false;
    }
}

/// With a distance of zero, only the origin is visible.
pub proof fn law_zero_distance_sees_only_origin(map: GameMap, origin: Position)
    ensures
        forall|q: Position| visible(map, origin, 0, q) <==> q == origin,
{
    assert forall|q: Position| visible(map, origin, 0, q) implies q == origin by {
        if q != origin {
            let (r, j) = choose|r: int, j: int|
                0 <= r < RAY_COUNT as int && #[trigger] ray_sees(map, origin, 0, r, j) && ray_cell(origin, r, j)
                    == (q.x as int, q.y as int);
        }
    }
}

/// Along a ray, the first opaque cell within reach is visible, and no later
/// sample of that ray is seen.
pub proof fn law_ray_stops_at_first_opaque(
    map: GameMap,
    origin: Position,
    max_distance: int,
    r: int,
    k: int,
)
    requires
        map.wf(),
        0 <= r < RAY_COUNT,
        0 <= k < max_distance,
        map.in_bounds(ray_cell(origin, r, k).0, ray_cell(origin, r, k).1),
        tile_opaque(map.tile(ray_cell(origin, r, k).0, ray_cell(origin, r, k).1)),
        ray_clear(map, origin, r, k),
    ensures
        visible(map, origin, max_distance, pos_of(ray_cell(origin, r, k))),
        forall|j: int| j > k ==> !#[trigger] ray_sees(map, origin, max_distance, r, j),
{
    let c = ray_cell(origin, r, k);
    assert(ray_sees(map, origin, max_distance, r, k));
    assert(ray_cell(origin, r, k) == (pos_of(c).x as int, pos_of(c).y as int));
    assert forall|j: int| j > k implies !#[trigger] ray_sees(map, origin, max_distance, r, j) by {
        if ray_sees(map, origin, max_distance, r, j) {
            assert(ray_clear(map, origin, r, j));
            assert(!tile_opaque(map.tile(ray_cell(origin, r, k).0, ray_cell(origin, r, k).1)));
        }
    }
}

} // verus!
