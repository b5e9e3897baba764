//! Shortest-path search over the grid with 8-directional unit-cost moves.
use vstd::prelude::*;

use crate::geometry::Position;
use crate::grid::GameMap;

verus! {

/// One legal move of a search from `from` to `to`: to one of the eight
/// neighbouring cells, inside the grid, and onto a cell that does not block
/// unless it is one of the two endpoints.
pub open spec fn step_ok(map: GameMap, from: Position, to: Position, a: Position, b: Position) -> bool {
    let dx = b.x - a.x;
    let dy = b.y - a.y;
    &&& -1 <= dx <= 1
    &&& -1 <= dy <= 1
    &&& !(dx == 0 && dy == 0)
    &&& map.in_bounds(b.x as int, b.y as int)
    &&& (!map.blocked(b.x as int, b.y as int) || b == from || b == to)
}

/// `p` leads from `from` to `to` by legal moves.
pub open spec fn is_walk(map: GameMap, from: Position, to: Position, p: Seq<Position>) -> bool {
    &&& p.len() >= 1
    &&& p[0] == from
    &&& p.last() == to
    &&& forall|i: int| 0 <= i < p.len() - 1 ==> step_ok(map, from, to, #[trigger] p[i], p[i + 1])
}

/// Some walk leads from `from` to `to`.
pub open spec fn reachable(map: GameMap, from: Position, to: Position) -> bool {
    exists|p: Seq<Position>| is_walk(map, from, to, p)
}

/// The number of 8-directional unit steps between two positions when
/// nothing is in the way: the larger of the two coordinate differences.
pub open spec fn chebyshev(a: Position, b: Position) -> int {
    let dx = if a.x >= b.x { a.x - b.x } else { b.x - a.x };
    let dy = if a.y >= b.y { a.y - b.y } else { b.y - a.y };
    if dx >= dy { dx } else { dy }
}

/// The Manhattan distance between two positions.
pub open spec fn manhattan(a: Position, b: Position) -> int {
    (if a.x >= b.x { a.x - b.x } else { b.x - a.x }) + (if a.y >= b.y { a.y - b.y } else { b.y - a.y })
}

impl Position {
    /// Whether the position lies inside `map`.
    pub fn is_valid(&self, map: &GameMap) -> (r: bool)
        ensures
            r == map.in_bounds(self.x as int, self.y as int),
    {
        map.is_within_bounds(self.x, self.y)
    }

    /// The Manhattan distance to `other`.
    pub fn distance(&self, other: &Position) -> (r: u64)
        ensures
            r == manhattan(*self, *other),
    {
        let dx = if self.x >= other.x {
            (self.x as i64 - other.x as i64) as u64
        } else {
            (other.x as i64 - self.x as i64) as u64
        };
        let dy = if self.y >= other.y {
            (self.y as i64 - other.y as i64) as u64
        } else {
            (other.y as i64 - self.y as i64) as u64
        };
        dx + dy
    }

    /// The Chebyshev distance to `other`: the search's estimate of the cost
    /// left, which never exceeds the cost of any walk there.
    pub fn step_distance(&self, other: &Position) -> (r: u64)
        ensures
            r == chebyshev(*self, *other),
    {
        let dx = if self.x >= other.x {
            (self.x as i64 - other.x as i64) as u64
        } else {
            (other.x as i64 - self.x as i64) as u64
        };
        let dy = if self.y >= other.y {
            (self.y as i64 - other.y as i64) as u64
        } else {
            (other.y as i64 - self.y as i64) as u64
        };
        if dx >= dy {
            dx
        } else {
            dy
        }
    }

    /// The legal moves from this position, each with cost 1, in the order
    /// north, south, east, west, north-east, north-west, south-east,
    /// south-west.
    pub fn successors(&self, map: &GameMap, from: &Position, to: &Position) -> (r: Vec<(Position, u64)>)
        requires
            map.wf(),
        ensures
            forall|i: int|
                0 <= i < r@.len() ==> (#[trigger] r@[i]).1 == 1 && step_ok(
                    *map,
                    *from,
                    *to,
                    *self,
                    r@[i].0,
                ),
            forall|q: Position|
                step_ok(*map, *from, *to, *self, q) ==> exists|i: int|
                    0 <= i < r@.len() && (#[trigger] r@[i]).0 == q,
            forall|i: int, j: int| 0 <= i < j < r@.len() ==> (#[trigger] r@[i]).0 != (#[trigger] r@[j]).0,
    {
        let mut res: Vec<(Position, u64)> = Vec::new();
        let mut k: usize = 0;
        while k < 8
            invariant
                map.wf(),
                k <= 8,
                forall|i: int|
                    0 <= i < res@.len() ==> (#[trigger] res@[i]).1 == 1 && step_ok(
                        *map,
                        *from,
                        *to,
                        *self,
                        res@[i].0,
                    ),
                forall|q: Position|
                    step_ok(*map, *from, *to, *self, q) && offset_rank(q.x - self.x, q.y - self.y)
                        < k ==> exists|i: int| 0 <= i < res@.len() && (#[trigger] res@[i]).0 == q,
                forall|i: int|
                    0 <= i < res@.len() ==> offset_rank(
                        (#[trigger] res@[i]).0.x - self.x,
                        res@[i].0.y - self.y,
                    ) < k,
                forall|i: int, j: int|
                    0 <= i < j < res@.len() ==> (#[trigger] res@[i]).0 != (#[trigger] res@[j]).0,
            decreases 8 - k,
        {
            let (dx, dy) = offset_of_rank(k);
            let nx = self.x as i64 + dx;
            let ny = self.y as i64 + dy;
            if nx >= 0 && ny >= 0 && nx < map.width as i64 && ny < map.height as i64 {
                let p = Position { x: nx as i32, y: ny as i32 };
                if !map.is_blocker(p.x, p.y) || p == *from || p == *to {
                    let ghost prev = res@;
                    res.push((p, 1));
                    assert forall|i: int, j: int|
                        0 <= i < j < res@.len() implies (#[trigger] res@[i]).0 != (#[trigger] res@[j]).0 by {
                        if j == prev.len() {
                            assert(res@[i] == prev[i]);
                            assert(offset_rank(prev[i].0.x - self.x, prev[i].0.y - self.y) < k);
                        } else {
                            assert(res@[i] == prev[i] && res@[j] == prev[j]);
                        }
                    }
                    assert forall|i: int| 0 <= i < res@.len() implies offset_rank(
                        (#[trigger] res@[i]).0.x - self.x,
                        res@[i].0.y - self.y,
                    ) < k + 1 by {
                        if i < prev.len() {
                            assert(res@[i] == prev[i]);
                        }
                    }
                    assert forall|q: Position|
                        step_ok(*map, *from, *to, *self, q) && offset_rank(q.x - self.x, q.y - self.y)
                            < k + 1 implies exists|i: int|
                        0 <= i < res@.len() && (#[trigger] res@[i]).0 == q by {
                        if offset_rank(q.x - self.x, q.y - self.y) == k {
                            assert(res@[prev.len() as int].0 == q);
                        } else {
                            let i = choose|i: int| 0 <= i < prev.len() && (#[trigger] prev[i]).0 == q;
                            assert(res@[i] == prev[i]);
                        }
                    }
                }
            }
            k = k + 1;
        }
        res
    }
}

/// The place of a neighbour offset in the listing order (8 for anything
/// that is not a neighbour offset).
pub open spec fn offset_rank(dx: int, dy: int) -> int {
    if dx == 0 && dy == 1 {
        0
    } else if dx == 0 && dy == -1 {
        1
    } else if dx == 1 && dy == 0 {
        2
    } else if dx == -1 && dy == 0 {
        3
    } else if dx == 1 && dy == 1 {
        4
    } else if dx == -1 && dy == 1 {
        5
    } else if dx == 1 && dy == -1 {
        6
    } else if dx == -1 && dy == -1 {
        7
    } else {
        8
    }
}

fn offset_of_rank(k: usize) -> (r: (i64, i64))
    requires
        k < 8,
    ensures
        offset_rank(r.0 as int, r.1 as int) == k,
{
    if k == 0 {
        (0, 1)
    } else if k == 1 {
        (0, -1)
    } else if k == 2 {
        (1, 0)
    } else if k == 3 {
        (-1, 0)
    } else if k == 4 {
        (1, 1)
    } else if k == 5 {
        (-1, 1)
    } else if k == 6 {
        (1, -1)
    } else {
        (-1, -1)
    }
}

/// Whether `p` is the goal `to`.
pub fn is_goal(p: &Position, to: &Position) -> (r: bool)
    ensures
        r == (*p == *to),
{
    *p == *to
}

/// Relies on `pathfinding::directed::astar::astar`, run from `from` with
/// `Position::successors` as the moves (each of cost 1),
/// `Position::step_distance` to `to` as the estimate and `is_goal` as the
/// test. The estimate never exceeds the cost left (one step changes each
/// coordinate by at most one), so, as the crate documents, the path is a
/// shortest one. It returns the node path it found:
/// it starts at `from` (the start is tested first, so `from == to` gives the
/// one-node path), ends at a node that passes the test, follows one listed
/// move per step, and holds each node once, since it is read off a chain
/// of distinct parent entries. It returns `None` only after every node
/// reachable from `from` was tested and none passed.
#[verifier::external_body]
fn astar_path(map: &GameMap, from: Position, to: Position) -> (r: Option<Vec<Position>>)
    requires
        map.wf(),
    ensures
        r matches Some(p) ==> is_walk(*map, from, to, p@) && p@.no_duplicates(),
        r matches Some(p) ==> forall|q: Seq<Position>| #[trigger] is_walk(*map, from, to, q) ==> p@.len() <= q.len(),
        r is None ==> !reachable(*map, from, to),
        r is Some || from != to,
        r matches Some(p) ==> (from == to ==> p@ == seq![from]),
{
    pathfinding::directed::astar::astar(
        &from,
        |p: &Position| p.successors(map, &from, &to),
        |p: &Position| p.step_distance(&to),
        |p: &Position| is_goal(p, &to),
    ).map(|(path, _cost)| path)
}

/// A shortest path from `from` to `to` and its cost, one per step, or
/// `None` when no path exists. The path may start and end on blocking cells but passes
/// through no other.
pub fn astar_next_step(map: &GameMap, from: Position, to: Position) -> (r: Option<(Vec<Position>, usize)>)
    requires
        map.wf(),
    ensures
        r is None <==> !reachable(*map, from, to),
        r matches Some(res) ==> is_walk(*map, from, to, res.0@) && res.0@.no_duplicates() && res.1
            == res.0@.len() - 1,
        from == to ==> (r matches Some(res) && res.0@ == seq![from] && res.1 == 0),
        r matches Some(res) ==> forall|q: Seq<Position>| #[trigger] is_walk(*map, from, to, q) ==> res.1 <= q.len() - 1,
{
    match astar_path(map, from, to) {
        Some(path) => {
            let cost = path.len() - 1;
            Some((path, cost))
        },
        None => None,
    }
}

/// Where an agent at `from` that chases `to` moves this turn: the cell after
/// `from` on the path the search finds, unless no path exists, the path has
/// no second cell, or something blocks that cell; then it stays put.
pub fn monster_step(map: &GameMap, from: Position, to: Position) -> (r: Position)
    requires
        map.wf(),
    ensures
        r == from || (step_ok(*map, from, to, from, r) && !map.blocked(r.x as int, r.y as int)),
        !reachable(*map, from, to) ==> r == from,
        from == to ==> r == from,
        reachable(*map, from, to) && from != to && map.in_bounds(to.x as int, to.y as int)
            && !map.blocked(to.x as int, to.y as int) ==> r != from,
{
    match astar_next_step(map, from, to) {
        Some((path, _cost)) => {
            if path.len() >= 2 {
                let next = path[1];
                assert(step_ok(*map, from, to, path@[0], path@[1]));
                assert(path@[0] != path@[1]);
                if !map.is_blocker(next.x, next.y) {
                    return next;
                }
            }
            from
        },
        None => from,
    }
}

/// Exactly the cells of row `y` from column `x0` to column `x1` are free.
pub open spec fn corridor_only(map: GameMap, y: int, x0: int, x1: int) -> bool {
    forall|cx: int, cy: int|
        #![trigger map.blocked(cx, cy)]
        map.in_bounds(cx, cy) ==> (map.blocked(cx, cy) <==> !(cy == y && x0 <= cx <= x1))
}

proof fn lemma_corridor_cell(
    map: GameMap,
    y: int,
    x0: int,
    x1: int,
    p: Seq<Position>,
    i: int,
)
    requires
        map.wf(),
        0 <= x0 <= x1 < map.width,
        0 <= y < map.height,
        corridor_only(map, y, x0, x1),
        is_walk(map, Position { x: x0 as i32, y: y as i32 }, Position { x: x1 as i32, y: y as i32 }, p),
        p.no_duplicates(),
        0 <= i < p.len(),
    ensures
        p[i].x == x0 + i,
        p[i].y == y,
    decreases i,
{
    let from = Position { x: x0 as i32, y: y as i32 };
    let to = Position { x: x1 as i32, y: y as i32 };
    if i > 0 {
        lemma_corridor_cell(map, y, x0, x1, p, i - 1);
        assert(step_ok(map, from, to, p[i - 1], p[i]));
        let q = p[i];
        assert(map.blocked(q.x as int, q.y as int) ==> q == from || q == to);
        assert(q.y == y && x0 <= q.x <= x1);
        if q.x == x0 + i - 2 {
            if i >= 2 {
                lemma_corridor_cell(map, y, x0, x1, p, i - 2);
                assert(p[i - 2] == q);
            }
        }
    }
}

/// On a grid whose only free cells form one straight corridor of `L` cells
/// along row `y`, from column `x0` to column `x1`, a path exists from one
/// end to the other, and every path without repeated cells between them is
/// the corridor itself: `L` cells, so cost `L - 1`.
pub proof fn law_straight_corridor(map: GameMap, y: int, x0: int, x1: int)
    requires
        map.wf(),
        0 <= x0 <= x1 < map.width,
        0 <= y < map.height,
        corridor_only(map, y, x0, x1),
    ensures
        reachable(map, Position { x: x0 as i32, y: y as i32 }, Position { x: x1 as i32, y: y as i32 }),
        forall|p: Seq<Position>|
            is_walk(map, Position { x: x0 as i32, y: y as i32 }, Position { x: x1 as i32, y: y as i32 }, p)
                && p.no_duplicates() ==> p.len() == x1 - x0 + 1 && forall|i: int|
                0 <= i < p.len() ==> (#[trigger] p[i]).x == x0 + i && p[i].y == y,
{
    let from = Position { x: x0 as i32, y: y as i32 };
    let to = Position { x: x1 as i32, y: y as i32 };
    let straight = Seq::new((x1 - x0 + 1) as nat, |i: int| Position { x: (x0 + i) as i32, y: y as i32 });
    assert forall|i: int| 0 <= i < straight.len() - 1 implies step_ok(
        map,
        from,
        to,
        #[trigger] straight[i],
        straight[i + 1],
    ) by {
        assert(!map.blocked(x0 + i + 1, y));
    }
    assert(straight.last() == to);
    assert(is_walk(map, from, to, straight));
    assert forall|p: Seq<Position>|
        is_walk(map, from, to, p) && p.no_duplicates() implies p.len() == x1 - x0 + 1 && forall|i: int|
        0 <= i < p.len() ==> (#[trigger] p[i]).x == x0 + i && p[i].y == y by {
        assert forall|i: int| 0 <= i < p.len() implies (#[trigger] p[i]).x == x0 + i && p[i].y == y by {
            lemma_corridor_cell(map, y, x0, x1, p, i);
        }
        lemma_corridor_cell(map, y, x0, x1, p, p.len() - 1);
    }
}

#[verifier::rlimit(30)]
proof fn lemma_corridor_cell_leftward(
    map: GameMap,
    y: int,
    x0: int,
    x1: int,
    p: Seq<Position>,
    i: int,
)
    requires
        map.wf(),
        0 <= x0 <= x1 < map.width,
        0 <= y < map.height,
        corridor_only(map, y, x0, x1),
        is_walk(map, Position { x: x1 as i32, y: y as i32 }, Position { x: x0 as i32, y: y as i32 }, p),
        p.no_duplicates(),
        0 <= i < p.len(),
    ensures
        p[i].x == x1 - i,
        p[i].y == y,
    decreases i,
{
    let from = Position { x: x1 as i32, y: y as i32 };
    let to = Position { x: x0 as i32, y: y as i32 };
    if i > 0 {
        lemma_corridor_cell_leftward(map, y, x0, x1, p, i - 1);
        let a = p[i - 1];
        let q = p[i];
        assert(step_ok(map, from, to, a, q));
        assert(a.x == x1 - i + 1 && a.y == y);
        assert(q.y == y && x0 <= q.x <= x1) by {
            if !(q.y == y && x0 <= q.x <= x1) {
                assert(map.blocked(q.x as int, q.y as int));
                assert(q == from || q == to);
            }
        }
        if q.x != x1 - i {
            assert(q.x == x1 - i + 2);
            if i >= 2 {
                lemma_corridor_cell_leftward(map, y, x0, x1, p, i - 2);
                assert(p[i - 2] == q);
            }
        }
    }
}

/// The corridor walked the other way: from column `x1` to column `x0 <= x1`,
/// every path without repeated cells is the corridor itself, `L` cells long.
pub proof fn law_straight_corridor_leftward(map: GameMap, y: int, x0: int, x1: int)
    requires
        map.wf(),
        0 <= x0 <= x1 < map.width,
        0 <= y < map.height,
        corridor_only(map, y, x0, x1),
    ensures
        reachable(map, Position { x: x1 as i32, y: y as i32 }, Position { x: x0 as i32, y: y as i32 }),
        forall|p: Seq<Position>|
            is_walk(map, Position { x: x1 as i32, y: y as i32 }, Position { x: x0 as i32, y: y as i32 }, p)
                && p.no_duplicates() ==> p.len() == x1 - x0 + 1 && forall|i: int|
                0 <= i < p.len() ==> (#[trigger] p[i]).x == x1 - i && p[i].y == y,
{
    let from = Position { x: x1 as i32, y: y as i32 };
    let to = Position { x: x0 as i32, y: y as i32 };
    let straight = Seq::new((x1 - x0 + 1) as nat, |i: int| Position { x: (x1 - i) as i32, y: y as i32 });
    assert forall|i: int| 0 <= i < straight.len() - 1 implies step_ok(
        map,
        from,
        to,
        #[trigger] straight[i],
        straight[i + 1],
    ) by {
        assert(!map.blocked(x1 - i - 1, y));
    }
    assert(straight.last() == to);
    assert(is_walk(map, from, to, straight));
    assert forall|p: Seq<Position>|
        is_walk(map, from, to, p) && p.no_duplicates() implies p.len() == x1 - x0 + 1 && forall|i: int|
        0 <= i < p.len() ==> (#[trigger] p[i]).x == x1 - i && p[i].y == y by {
        assert forall|i: int| 0 <= i < p.len() implies (#[trigger] p[i]).x == x1 - i && p[i].y == y by {
            lemma_corridor_cell_leftward(map, y, x0, x1, p, i);
        }
        lemma_corridor_cell_leftward(map, y, x0, x1, p, p.len() - 1);
    }
}

} // verus!
