//! Binary space partition: split the interior into leaves, carve one room
//! per leaf, and join each room to the one before it with a corridor.
use vstd::prelude::*;

use crate::builder::MapGenerator;
use crate::geometry::{Position, Rectangle};
use crate::drunkards::floors_grow;
use crate::grid::GameMap;
use crate::rng::GameRNG;
use crate::tile::GameTile;

verus! {

/// How many times `BSPRoomMapGenerator::new` splits the interior: up to
/// `2^BSP_DEPTH` leaves.
pub const BSP_DEPTH: usize = 4;

/// `2^n`.
pub open spec fn pow2(n: nat) -> nat
    decreases n,
{
    if n == 0 {
        1
    } else {
        2 * pow2((n - 1) as nat)
    }
}

pub proof fn lemma_pow2_positive(n: nat)
    ensures
        pow2(n) >= 1,
    decreases n,
{
    if n > 0 {
        lemma_pow2_positive((n - 1) as nat);
    }
}

/// The grid without its outer ring of cells.
pub open spec fn padded_interior(m: GameMap) -> Rectangle {
    Rectangle { x: 1, y: 1, width: (m.width - 2) as usize, height: (m.height - 2) as usize }
}

pub open spec fn nonempty(r: Rectangle) -> bool {
    r.width >= 1 && r.height >= 1
}

/// `inner` lies inside `outer`.
pub open spec fn rect_within(inner: Rectangle, outer: Rectangle) -> bool {
    &&& outer.x <= inner.x
    &&& inner.x + inner.width <= outer.x + outer.width
    &&& outer.y <= inner.y
    &&& inner.y + inner.height <= outer.y + outer.height
}

/// A split of a rectangle of width `w` and extent `n` along the split axis
/// at offset `k`: `k` lies between 30% and 70% of `n` (rounded down), and
/// each part keeps a ratio of at least 0.4 between its extent along the axis
/// and `w`.
pub open spec fn valid_split(n: int, w: int, k: int) -> bool {
    &&& 3 * n / 10 <= k <= 7 * n / 10
    &&& 5 * k >= 2 * w
    &&& 5 * (n - k) >= 2 * w
}

/// `a` and `b` are the two halves of `r` after a valid split.
pub open spec fn split_of(r: Rectangle, a: Rectangle, b: Rectangle) -> bool {
    ||| (a == Rectangle { x: r.x, y: r.y, width: r.width, height: a.height } && b == Rectangle {
        x: r.x,
        y: (r.y + a.height) as usize,
        width: r.width,
        height: (r.height - a.height) as usize,
    } && valid_split(r.height as int, r.width as int, a.height as int))
    ||| (a == Rectangle { x: r.x, y: r.y, width: a.width, height: r.height } && b == Rectangle {
        x: (r.x + a.width) as usize,
        y: r.y,
        width: (r.width - a.width) as usize,
        height: r.height,
    } && valid_split(r.width as int, r.height as int, a.width as int))
}

/// A rectangle whose cells all lie at coordinates that fit in an `i32`.
pub open spec fn addressable(r: Rectangle) -> bool {
    r.x + r.width <= 0x7fff_ffff && r.y + r.height <= 0x7fff_ffff
}

/// The smallest and largest valid split offsets along an axis of extent
/// `n`, for a rectangle of width `w` across it.
fn split_bounds(n: u64, w: u64) -> (r: (u64, u64))
    requires
        n <= 0x7fff_ffff,
        w <= 0x7fff_ffff,
    ensures
        forall|k: int| valid_split(n as int, w as int, k) <==> r.0 <= k <= r.1,
        r.1 <= n,
{
    let need = (2 * w + 4) / 5;
    let lo = if need > 3 * n / 10 { need } else { 3 * n / 10 };
    let cap = if n >= need { n - need } else { 0 };
    let hi = if cap < 7 * n / 10 { cap } else { 7 * n / 10 };
    if n < need {
        assert forall|k: int| !valid_split(n as int, w as int, k) by {
            if valid_split(n as int, w as int, k) {
                assert(k <= 7 * n / 10);
            }
        }
        (1, 0)
    } else {
        (lo, hi)
    }
}

/// How many times a split is drawn and rejected before the draw is made
/// among the admissible splits only.
pub const MAX_SPLIT_ATTEMPTS: usize = 100;

/// The two halves of `rect` split along `horizontal` rows (or columns) at
/// offset `k`.
fn halves(rect: &Rectangle, horizontal: bool, k: usize) -> (r: (Rectangle, Rectangle))
    requires
        horizontal ==> k <= rect.height,
        !horizontal ==> k <= rect.width,
        addressable(*rect),
    ensures
        horizontal ==> r.0 == (Rectangle { x: rect.x, y: rect.y, width: rect.width, height: k }) && r.1
            == (Rectangle {
            x: rect.x,
            y: (rect.y + k) as usize,
            width: rect.width,
            height: (rect.height - k) as usize,
        }),
        !horizontal ==> r.0 == (Rectangle { x: rect.x, y: rect.y, width: k, height: rect.height }) && r.1
            == (Rectangle {
            x: (rect.x + k) as usize,
            y: rect.y,
            width: (rect.width - k) as usize,
            height: rect.height,
        }),
{
    if horizontal {
        (
            Rectangle { x: rect.x, y: rect.y, width: rect.width, height: k },
            Rectangle { x: rect.x, y: rect.y + k, width: rect.width, height: rect.height - k },
        )
    } else {
        (
            Rectangle { x: rect.x, y: rect.y, width: k, height: rect.height },
            Rectangle { x: rect.x + k, y: rect.y, width: rect.width - k, height: rect.height },
        )
    }
}

/// Splits `rect` in two: draws an axis uniformly and an offset uniformly
/// between 30% and 70% of the extent along it, and draws again while
/// either half would be thinner than 0.4 of its length. After
/// `MAX_SPLIT_ATTEMPTS` rejected draws the axis is drawn among those that
/// admit a split and the offset among the admissible ones. `None` when
/// neither axis admits a split.
fn split_random(rect: &Rectangle, rng: &mut GameRNG) -> (r: Option<(Rectangle, Rectangle)>)
    requires
        addressable(*rect),
    ensures
        r matches Some(p) ==> split_of(*rect, p.0, p.1),
        r is None ==> forall|k: int|
            !valid_split(rect.height as int, rect.width as int, k) && !valid_split(
                rect.width as int,
                rect.height as int,
                k,
            ),
{
    let (hlo, hhi) = split_bounds(rect.height as u64, rect.width as u64);
    let (vlo, vhi) = split_bounds(rect.width as u64, rect.height as u64);
    let can_h = hlo <= hhi;
    let can_v = vlo <= vhi;
    if !can_h && !can_v {
        return None;
    }
    let mut attempt: usize = 0;
    while attempt < MAX_SPLIT_ATTEMPTS
        invariant
            addressable(*rect),
            forall|k: int| valid_split(rect.height as int, rect.width as int, k) <==> hlo <= k <= hhi,
            forall|k: int| valid_split(rect.width as int, rect.height as int, k) <==> vlo <= k <= vhi,
        decreases MAX_SPLIT_ATTEMPTS - attempt,
    {
        let horizontal = rng.rand_range_incl(0, 1) == 0;
        let n = if horizontal { rect.height as u64 } else { rect.width as u64 };
        let k = rng.rand_range_incl((3 * n / 10) as i32, (7 * n / 10) as i32) as u64;
        if (horizontal && hlo <= k && k <= hhi) || (!horizontal && vlo <= k && k <= vhi) {
            return Some(halves(rect, horizontal, k as usize));
        }
        attempt = attempt + 1;
    }
    let horizontal = if can_h && can_v {
        rng.rand_range_incl(0, 1) == 0
    } else {
        can_h
    };
    let k = if horizontal {
        rng.rand_range_incl(hlo as i32, hhi as i32)
    } else {
        rng.rand_range_incl(vlo as i32, vhi as i32)
    };
    Some(halves(rect, horizontal, k as usize))
}

/// A node of the split tree: its rectangle and, once split, its two parts.
pub struct BSPPartition {
    pub rect: Rectangle,
    pub children: Box<Option<(BSPPartition, BSPPartition)>>,
}

impl BSPPartition {
    /// An unsplit node.
    pub fn new(rect: Rectangle) -> (r: BSPPartition)
        ensures
            r.rect == rect,
            *r.children is None,
    {
        BSPPartition { rect, children: Box::new(None) }
    }

    /// The leaf rectangles, left part before right part.
    pub open spec fn leaves(self) -> Seq<Rectangle>
        decreases self,
    {
        match *self.children {
            Some((l, r)) => l.leaves() + r.leaves(),
            None => seq![self.rect],
        }
    }
}

/// `a` and `b` share no cell.
pub open spec fn rect_disjoint(a: Rectangle, b: Rectangle) -> bool {
    a.x + a.width <= b.x || b.x + b.width <= a.x || a.y + a.height <= b.y || b.y + b.height <= a.y
}

/// Every leaf of a tree split at most `depth` times from `outer`: at most
/// `2^depth` of them, at least one, each non-empty and inside `outer`, no
/// two sharing a cell.
pub open spec fn split_tree_ok(p: BSPPartition, outer: Rectangle, depth: nat) -> bool {
    &&& p.rect == outer
    &&& 1 <= p.leaves().len() <= pow2(depth)
    &&& forall|i: int|
        0 <= i < p.leaves().len() ==> nonempty(#[trigger] p.leaves()[i]) && rect_within(
            p.leaves()[i],
            outer,
        )
    &&& forall|i: int, j: int|
        0 <= i < j < p.leaves().len() ==> rect_disjoint(#[trigger] p.leaves()[i], #[trigger] p.leaves()[j])
}

/// Splits `partition` recursively `count` times; a part that admits no
/// valid split stays a leaf.
fn split_bsp(partition: BSPPartition, count: usize, rng: &mut GameRNG) -> (r: BSPPartition)
    requires
        addressable(partition.rect),
        nonempty(partition.rect),
        *partition.children is None,
    ensures
        split_tree_ok(r, partition.rect, count as nat),
    decreases count,
{
    proof {
        lemma_pow2_positive(count as nat);
    }
    if count > 0 {
        match split_random(&partition.rect, rng) {
            Some((a, b)) => {
                let left = split_bsp(BSPPartition::new(a), count - 1, rng);
                let right = split_bsp(BSPPartition::new(b), count - 1, rng);
                let rect = partition.rect;
                let r = BSPPartition { rect, children: Box::new(Some((left, right))) };
                assert(r.leaves() == left.leaves() + right.leaves());
                assert(pow2(count as nat) == 2 * pow2((count - 1) as nat));
                assert forall|i: int|
                    0 <= i < r.leaves().len() implies nonempty(#[trigger] r.leaves()[i])
                    && rect_within(r.leaves()[i], rect) by {
                    if i < left.leaves().len() {
                        assert(r.leaves()[i] == left.leaves()[i]);
                    } else {
                        assert(r.leaves()[i] == right.leaves()[i - left.leaves().len()]);
                    }
                }
                assert forall|i: int, j: int|
                    0 <= i < j < r.leaves().len() implies rect_disjoint(
                    #[trigger] r.leaves()[i],
                    #[trigger] r.leaves()[j],
                ) by {
                    let nl = left.leaves().len() as int;
                    if j < nl {
                        assert(r.leaves()[i] == left.leaves()[i] && r.leaves()[j] == left.leaves()[j]);
                    } else if i >= nl {
                        assert(r.leaves()[i] == right.leaves()[i - nl] && r.leaves()[j] == right.leaves()[j - nl]);
                    } else {
                        assert(r.leaves()[i] == left.leaves()[i] && r.leaves()[j] == right.leaves()[j - nl]);
                        assert(rect_within(left.leaves()[i], a));
                        assert(rect_within(right.leaves()[j - nl], b));
                    }
                }
                return r;
            },
            None => {},
        }
    }
    partition
}

/// The leaves of `partition`, left part before right part.
fn collect_leaf(partition: &BSPPartition) -> (r: Vec<Rectangle>)
    ensures
        r@ == partition.leaves(),
    decreases partition,
{
    match &*partition.children {
        Some((l_part, r_part)) => {
            let mut res = collect_leaf(l_part);
            let mut rest = collect_leaf(r_part);
            res.append(&mut rest);
            res
        },
        None => {
            let mut res = Vec::new();
            res.push(partition.rect);
            assert(res@ =~= seq![partition.rect]);
            res
        },
    }
}

/// Picks the room carved in `area`: each of its four edges is pulled in by
/// a random amount up to a third of what is left of the extent.
fn room_in(area: &Rectangle, rng: &mut GameRNG) -> (r: Rectangle)
    requires
        addressable(*area),
        nonempty(*area),
    ensures
        nonempty(r),
        rect_within(r, *area),
{
    let room_x = area.x + rng.rand_range_incl(0, area.width as i32 / 3) as usize;
    let room_y = area.y + rng.rand_range_incl(0, area.height as i32 / 3) as usize;
    let room_w_p = area.width - (room_x - area.x);
    let room_h_p = area.height - (room_y - area.y);
    let room_w = room_w_p - rng.rand_range_incl(0, room_w_p as i32 / 3) as usize;
    let room_h = room_h_p - rng.rand_range_incl(0, room_h_p as i32 / 3) as usize;
    Rectangle { x: room_x, y: room_y, width: room_w, height: room_h }
}

/// Only floor was painted: each cell of `b` holds what `a` held there, or floor.
pub open spec fn paints_floor(a: GameMap, b: GameMap) -> bool {
    &&& a.width == b.width
    &&& a.height == b.height
    &&& forall|x: int, y: int|
        #![trigger b.tile(x, y)]
        b.in_bounds(x, y) ==> b.tile(x, y) == a.tile(x, y) || b.tile(x, y) == GameTile::Floor
}

/// Painting only floor grows the floor of the tile array.
pub proof fn lemma_paints_floor_grows(a: GameMap, b: GameMap)
    requires
        a.wf(),
        b.wf(),
        paints_floor(a, b),
    ensures
        floors_grow(a.tiles@, b.tiles@),
{
    let w = a.width as int;
    assert forall|i: int| 0 <= i < a.tiles@.len() && #[trigger] a.tiles@[i] == GameTile::Floor implies b.tiles@[i]
        == GameTile::Floor by {
        let x = i % w;
        let y = i / w;
        vstd::arithmetic::div_mod::lemma_fundamental_div_mod(i, w);
        vstd::arithmetic::div_mod::lemma_mod_bound(i, w);
        vstd::arithmetic::div_mod::lemma_div_pos_is_pos(i, w);
        assert(y < a.height as int) by (nonlinear_arith)
            requires
                i == w * y + x,
                0 <= x,
                i < w * a.height,
                w > 0,
        ;
        assert(crate::grid::cell_index(w, x, y) == i);
        assert(b.in_bounds(x, y));
        assert(b.tile(x, y) == a.tile(x, y) || b.tile(x, y) == GameTile::Floor);
    }
}

/// Every cell of `r` is floor in `m`.
pub open spec fn room_floored(m: GameMap, r: Rectangle) -> bool {
    forall|x: int, y: int| #[trigger] r.contains(x, y) ==> m.tile(x, y) == GameTile::Floor
}

pub proof fn lemma_cell_at_in_rect(r: Rectangle, k: int)
    requires
        0 <= k < r.width * r.height,
        r.x + r.width <= usize::MAX,
        r.y + r.height <= usize::MAX,
    ensures
        r.contains(r.cell_at(k).0 as int, r.cell_at(k).1 as int),
        r.cell_at(k).0 == r.x + k / r.height as int,
        r.cell_at(k).1 == r.y + k % r.height as int,
{
    let h = r.height as int;
    let w = r.width as int;
    assert(h > 0) by (nonlinear_arith)
        requires
            0 <= k < w * h,
            w >= 0,
            h >= 0,
    ;
    vstd::arithmetic::div_mod::lemma_fundamental_div_mod(k, h);
    vstd::arithmetic::div_mod::lemma_mod_bound(k, h);
    vstd::arithmetic::div_mod::lemma_div_pos_is_pos(k, h);
    let q = k / h;
    assert(q < w) by (nonlinear_arith)
        requires
            k == h * q + k % h,
            0 <= k % h,
            k < w * h,
            h > 0,
    ;
}

pub proof fn lemma_area_positive(r: Rectangle)
    requires
        nonempty(r),
    ensures
        r.width * r.height >= 1,
{
    assert(r.width * r.height >= 1) by (nonlinear_arith)
        requires
            r.width >= 1,
            r.height >= 1,
    ;
}

/// Two cells share a side.
pub open spec fn adjacent4(a: (int, int), b: (int, int)) -> bool {
    (a.0 == b.0 && (a.1 - b.1 == 1 || b.1 - a.1 == 1)) || (a.1 == b.1 && (a.0 - b.0 == 1 || b.0
        - a.0 == 1))
}

/// `p` is a non-empty run of floor cells of `m`, each sharing a side with
/// the next.
pub open spec fn floor_path(m: GameMap, p: Seq<(int, int)>) -> bool {
    &&& p.len() >= 1
    &&& forall|i: int|
        0 <= i < p.len() ==> m.in_bounds((#[trigger] p[i]).0, p[i].1) && m.tile(p[i].0, p[i].1)
            == GameTile::Floor
    &&& forall|i: int| 0 <= i < p.len() - 1 ==> adjacent4(#[trigger] p[i], p[i + 1])
}

/// A floor path leads from `a` to `b` in `m`.
pub open spec fn floor_connected(m: GameMap, a: (int, int), b: (int, int)) -> bool {
    exists|p: Seq<(int, int)>| floor_path(m, p) && p[0] == a && p.last() == b
}

/// Every cell of room `r1` is connected by floor to every cell of room `r2`.
pub open spec fn rooms_joined(m: GameMap, r1: Rectangle, r2: Rectangle) -> bool {
    forall|ax: int, ay: int, bx: int, by: int|
        #![trigger r1.contains(ax, ay), r2.contains(bx, by)]
        r1.contains(ax, ay) && r2.contains(bx, by) ==> floor_connected(m, (ax, ay), (bx, by))
}

/// The cells of row `y` from column `x0` to column `x1`, in that order.
pub open spec fn hline(y: int, x0: int, x1: int) -> Seq<(int, int)> {
    if x0 <= x1 {
        Seq::new((x1 - x0 + 1) as nat, |i: int| (x0 + i, y))
    } else {
        Seq::new((x0 - x1 + 1) as nat, |i: int| (x0 - i, y))
    }
}

/// The cells of column `x` from row `y0` to row `y1`, in that order.
pub open spec fn vline(x: int, y0: int, y1: int) -> Seq<(int, int)> {
    if y0 <= y1 {
        Seq::new((y1 - y0 + 1) as nat, |i: int| (x, y0 + i))
    } else {
        Seq::new((y0 - y1 + 1) as nat, |i: int| (x, y0 - i))
    }
}

pub proof fn lemma_hline_path(m: GameMap, y: int, x0: int, x1: int)
    requires
        forall|x: int|
            (x0 <= x <= x1 || x1 <= x <= x0) ==> m.in_bounds(x, y) && #[trigger] m.tile(x, y)
                == GameTile::Floor,
    ensures
        floor_path(m, hline(y, x0, x1)),
        hline(y, x0, x1)[0] == (x0, y),
        hline(y, x0, x1).last() == (x1, y),
{
    let p = hline(y, x0, x1);
    assert forall|i: int| 0 <= i < p.len() implies m.in_bounds((#[trigger] p[i]).0, p[i].1) && m.tile(
        p[i].0,
        p[i].1,
    ) == GameTile::Floor by {
        assert(m.tile(p[i].0, y) == GameTile::Floor);
    }
}

pub proof fn lemma_vline_path(m: GameMap, x: int, y0: int, y1: int)
    requires
        forall|y: int|
            (y0 <= y <= y1 || y1 <= y <= y0) ==> m.in_bounds(x, y) && #[trigger] m.tile(x, y)
                == GameTile::Floor,
    ensures
        floor_path(m, vline(x, y0, y1)),
        vline(x, y0, y1)[0] == (x, y0),
        vline(x, y0, y1).last() == (x, y1),
{
    let p = vline(x, y0, y1);
    assert forall|i: int| 0 <= i < p.len() implies m.in_bounds((#[trigger] p[i]).0, p[i].1) && m.tile(
        p[i].0,
        p[i].1,
    ) == GameTile::Floor by {
        assert(m.tile(x, p[i].1) == GameTile::Floor);
    }
}

/// Two floor paths that meet join into one.
pub proof fn lemma_join_paths(m: GameMap, p: Seq<(int, int)>, q: Seq<(int, int)>)
    requires
        floor_path(m, p),
        floor_path(m, q),
        p.last() == q[0],
    ensures
        floor_path(m, p + q.drop_first()),
        (p + q.drop_first())[0] == p[0],
        (p + q.drop_first()).last() == q.last(),
{
    let r = p + q.drop_first();
    assert forall|i: int| 0 <= i < r.len() implies m.in_bounds((#[trigger] r[i]).0, r[i].1) && m.tile(
        r[i].0,
        r[i].1,
    ) == GameTile::Floor by {
        if i >= p.len() {
            assert(r[i] == q[i - p.len() + 1]);
        }
    }
    assert forall|i: int| 0 <= i < r.len() - 1 implies adjacent4(#[trigger] r[i], r[i + 1]) by {
        if i < p.len() - 1 {
            assert(r[i] == p[i] && r[i + 1] == p[i + 1]);
        } else if i == p.len() - 1 {
            assert(r[i] == q[0] && r[i + 1] == q[1]);
        } else {
            assert(r[i] == q[i - p.len() + 1] && r[i + 1] == q[i - p.len() + 2]);
        }
    }
    if q.len() == 1 {
        assert(r.last() == p.last());
    } else {
        assert(r.last() == q[q.len() - 1]);
    }
}

pub proof fn lemma_connected_trans(m: GameMap, a: (int, int), b: (int, int), c: (int, int))
    requires
        floor_connected(m, a, b),
        floor_connected(m, b, c),
    ensures
        floor_connected(m, a, c),
{
    let p = choose|p: Seq<(int, int)>| floor_path(m, p) && p[0] == a && p.last() == b;
    let q = choose|q: Seq<(int, int)>| floor_path(m, q) && q[0] == b && q.last() == c;
    lemma_join_paths(m, p, q);
}

/// Any two cells of a room whose cells are all floor are connected.
pub proof fn lemma_room_path(m: GameMap, r: Rectangle, ax: int, ay: int, bx: int, by: int)
    requires
        room_floored(m, r),
        forall|x: int, y: int| r.contains(x, y) ==> m.in_bounds(x, y),
        r.contains(ax, ay),
        r.contains(bx, by),
    ensures
        floor_connected(m, (ax, ay), (bx, by)),
{
    assert forall|x: int|
        (ax <= x <= bx || bx <= x <= ax) implies m.in_bounds(x, ay) && #[trigger] m.tile(x, ay)
        == GameTile::Floor by {
        assert(r.contains(x, ay));
    }
    lemma_hline_path(m, ay, ax, bx);
    assert forall|y: int|
        (ay <= y <= by || by <= y <= ay) implies m.in_bounds(bx, y) && #[trigger] m.tile(bx, y)
        == GameTile::Floor by {
        assert(r.contains(bx, y));
    }
    lemma_vline_path(m, bx, ay, by);
    lemma_join_paths(m, hline(ay, ax, bx), vline(bx, ay, by));
}

/// Floor paths survive painting that only adds floor.
pub proof fn lemma_connected_persists(a: GameMap, b: GameMap, u: (int, int), v: (int, int))
    requires
        floor_connected(a, u, v),
        paints_floor(a, b),
    ensures
        floor_connected(b, u, v),
{
    let p = choose|p: Seq<(int, int)>| floor_path(a, p) && p[0] == u && p.last() == v;
    assert forall|i: int| 0 <= i < p.len() implies b.in_bounds((#[trigger] p[i]).0, p[i].1) && b.tile(
        p[i].0,
        p[i].1,
    ) == GameTile::Floor by {
        assert(b.tile(p[i].0, p[i].1) == a.tile(p[i].0, p[i].1) || b.tile(p[i].0, p[i].1)
            == GameTile::Floor);
    }
    assert(floor_path(b, p));
}

pub proof fn lemma_joined_persists(a: GameMap, b: GameMap, r1: Rectangle, r2: Rectangle)
    requires
        rooms_joined(a, r1, r2),
        paints_floor(a, b),
    ensures
        rooms_joined(b, r1, r2),
{
    assert forall|ax: int, ay: int, bx: int, by: int|
        #![trigger r1.contains(ax, ay), r2.contains(bx, by)]
        r1.contains(ax, ay) && r2.contains(bx, by) implies floor_connected(b, (ax, ay), (bx, by)) by {
        lemma_connected_persists(a, b, (ax, ay), (bx, by));
    }
}

/// One floor connection between a cell of each room joins the two rooms.
pub proof fn lemma_rooms_joined_by(m: GameMap, r1: Rectangle, r2: Rectangle, l: (int, int), c: (int, int))
    requires
        room_floored(m, r1),
        room_floored(m, r2),
        forall|x: int, y: int| r1.contains(x, y) ==> m.in_bounds(x, y),
        forall|x: int, y: int| r2.contains(x, y) ==> m.in_bounds(x, y),
        r1.contains(l.0, l.1),
        r2.contains(c.0, c.1),
        floor_connected(m, l, c),
    ensures
        rooms_joined(m, r1, r2),
{
    assert forall|ax: int, ay: int, bx: int, by: int|
        #![trigger r1.contains(ax, ay), r2.contains(bx, by)]
        r1.contains(ax, ay) && r2.contains(bx, by) implies floor_connected(m, (ax, ay), (bx, by)) by {
        lemma_room_path(m, r1, ax, ay, l.0, l.1);
        lemma_room_path(m, r2, c.0, c.1, bx, by);
        lemma_connected_trans(m, (ax, ay), l, c);
        lemma_connected_trans(m, (ax, ay), c, (bx, by));
    }
}

/// `p` lies in the padded interior of `m`.
pub open spec fn inside(m: GameMap, p: (usize, usize)) -> bool {
    1 <= p.0 <= m.width - 2 && 1 <= p.1 <= m.height - 2
}

/// `(x, y)` lies on the outer ring of cells of `m`.
pub open spec fn on_ring(m: GameMap, x: int, y: int) -> bool {
    m.in_bounds(x, y) && (x == 0 || y == 0 || x == m.width - 1 || y == m.height - 1)
}

/// `b` holds on the outer ring what `a` holds there.
pub open spec fn ring_kept(a: GameMap, b: GameMap) -> bool {
    &&& a.width == b.width
    &&& a.height == b.height
    &&& forall|x: int, y: int| #![trigger b.tile(x, y)] on_ring(a, x, y) ==> b.tile(x, y) == a.tile(x, y)
}

/// The contract shared by the corridor carvers: only floor painted, away
/// from the outer ring, and the floor now leads from `l` to `c`.
pub open spec fn carved_between(a: GameMap, b: GameMap, l: (usize, usize), c: (usize, usize)) -> bool {
    &&& b.wf()
    &&& b.same_frame(a)
    &&& b.history@ == a.history@
    &&& paints_floor(a, b)
    &&& ring_kept(a, b)
    &&& floor_connected(b, (l.0 as int, l.1 as int), (c.0 as int, c.1 as int))
}

/// Floors the column shared by `c` and `l` between them.
fn carve_column(m: &mut GameMap, c: (usize, usize), l: (usize, usize))
    requires
        old(m).wf(),
        c.0 == l.0,
        inside(*old(m), c),
        inside(*old(m), l),
        old(m).tile(c.0 as int, c.1 as int) == GameTile::Floor,
        old(m).tile(l.0 as int, l.1 as int) == GameTile::Floor,
    ensures
        carved_between(*old(m), *final(m), l, c),
{
    if c.1 < l.1 {
        m.draw_square(c.0, c.1, 1, l.1 - c.1, GameTile::Floor, GameTile::Floor);
    } else {
        m.draw_square(l.0, l.1, 1, c.1 - l.1, GameTile::Floor, GameTile::Floor);
    }
    assert forall|y: int|
        (l.1 <= y <= c.1 || c.1 <= y <= l.1) implies m.in_bounds(c.0 as int, y) && #[trigger] m.tile(
        c.0 as int,
        y,
    ) == GameTile::Floor by {
        assert(m.in_bounds(c.0 as int, y));
    }
    proof {
        lemma_vline_path(*m, c.0 as int, l.1 as int, c.1 as int);
    }
}

/// Floors the row shared by `c` and `l` between them.
fn carve_row(m: &mut GameMap, c: (usize, usize), l: (usize, usize))
    requires
        old(m).wf(),
        c.1 == l.1,
        inside(*old(m), c),
        inside(*old(m), l),
        old(m).tile(c.0 as int, c.1 as int) == GameTile::Floor,
        old(m).tile(l.0 as int, l.1 as int) == GameTile::Floor,
    ensures
        carved_between(*old(m), *final(m), l, c),
{
    if c.0 < l.0 {
        m.draw_square(c.0, c.1, l.0 - c.0, 1, GameTile::Floor, GameTile::Floor);
    } else {
        m.draw_square(l.0, l.1, c.0 - l.0, 1, GameTile::Floor, GameTile::Floor);
    }
    assert forall|x: int|
        (l.0 <= x <= c.0 || c.0 <= x <= l.0) implies m.in_bounds(x, c.1 as int) && #[trigger] m.tile(
        x,
        c.1 as int,
    ) == GameTile::Floor by {
        assert(m.in_bounds(x, c.1 as int));
    }
    proof {
        lemma_hline_path(*m, c.1 as int, l.0 as int, c.0 as int);
    }
}

/// Joins `l` and `c` with a horizontal run along `l`'s row from `l`'s
/// column to `c`'s, then a vertical run along `c`'s column from `l`'s row
/// to `c`'s.
#[verifier::rlimit(60)]
fn carve_dog_leg(m: &mut GameMap, c: (usize, usize), l: (usize, usize))
    requires
        old(m).wf(),
        inside(*old(m), c),
        inside(*old(m), l),
        old(m).tile(c.0 as int, c.1 as int) == GameTile::Floor,
        old(m).tile(l.0 as int, l.1 as int) == GameTile::Floor,
    ensures
        carved_between(*old(m), *final(m), l, c),
{
    let (cx, cy) = c;
    let (lx, ly) = l;
    if lx < cx {
        m.draw_square(lx, ly, cx - lx + 1, 1, GameTile::Floor, GameTile::Floor);
    } else {
        m.draw_square(cx, ly, lx - cx + 1, 1, GameTile::Floor, GameTile::Floor);
    }
    let ghost mid = *m;
    if ly < cy {
        m.draw_square(cx, ly, 1, cy - ly + 1, GameTile::Floor, GameTile::Floor);
    } else {
        m.draw_square(cx, cy, 1, ly - cy + 1, GameTile::Floor, GameTile::Floor);
    }
    assert forall|x: int, y: int| #[trigger] m.in_bounds(x, y) implies m.tile(x, y) == old(m).tile(
        x,
        y,
    ) || m.tile(x, y) == GameTile::Floor by {
        assert(mid.tile(x, y) == old(m).tile(x, y) || mid.tile(x, y) == GameTile::Floor);
    }
    assert forall|x: int, y: int|
        #![trigger m.tile(x, y)]
        on_ring(*m, x, y) implies m.tile(x, y) == old(m).tile(x, y) by {
        assert(mid.tile(x, y) == old(m).tile(x, y));
    }
    assert forall|y: int|
        (ly <= y <= cy || cy <= y <= ly) implies m.in_bounds(cx as int, y) && #[trigger] m.tile(
        cx as int,
        y,
    ) == GameTile::Floor by {
        assert(m.in_bounds(cx as int, y));
    }
    assert forall|x: int|
        (lx <= x <= cx || cx <= x <= lx) implies m.in_bounds(x, ly as int) && #[trigger] m.tile(
        x,
        ly as int,
    ) == GameTile::Floor by {
        assert(m.in_bounds(x, ly as int));
        assert(mid.tile(x, ly as int) == GameTile::Floor);
    }
    proof {
        lemma_hline_path(*m, ly as int, lx as int, cx as int);
        lemma_vline_path(*m, cx as int, ly as int, cy as int);
        lemma_join_paths(*m, hline(ly as int, lx as int, cx as int), vline(cx as int, ly as int, cy as int));
    }
}

/// Carves a corridor between two rooms and takes a snapshot. When some cell
/// of `cur` shares a column with some cell of `last`, one such pair is drawn
/// uniformly and the column between them is floored; otherwise the same with
/// a shared row; otherwise a cell of each room is drawn and joined by a
/// horizontal run followed by a vertical one.
fn connect_rooms(m: &mut GameMap, last: &Rectangle, cur: &Rectangle, rng: &mut GameRNG)
    requires
        old(m).wf(),
        old(m).width >= 3,
        old(m).height >= 3,
        nonempty(*last),
        nonempty(*cur),
        rect_within(*last, padded_interior(*old(m))),
        rect_within(*cur, padded_interior(*old(m))),
        room_floored(*old(m), *last),
        room_floored(*old(m), *cur),
    ensures
        final(m).wf(),
        final(m).same_frame(*old(m)),
        paints_floor(*old(m), *final(m)),
        ring_kept(*old(m), *final(m)),
        final(m).history_view() == old(m).history_view().push(final(m).tiles@),
        rooms_joined(*final(m), *last, *cur),
{
    let cur_all_squares = cur.all_squares();
    let last_all_squares = last.all_squares();
    let mut x_pairs: Vec<((usize, usize), (usize, usize))> = Vec::new();
    let mut y_pairs: Vec<((usize, usize), (usize, usize))> = Vec::new();
    let mut i: usize = 0;
    while i < cur_all_squares.len()
        invariant
            i <= cur_all_squares@.len(),
            addressable(*cur),
            addressable(*last),
            cur_all_squares@.len() == cur.width * cur.height,
            last_all_squares@.len() == last.width * last.height,
            forall|k: int| 0 <= k < cur_all_squares@.len() ==> #[trigger] cur_all_squares@[k] == cur.cell_at(k),
            forall|k: int| 0 <= k < last_all_squares@.len() ==> #[trigger] last_all_squares@[k] == last.cell_at(k),
            forall|k: int|
                #![trigger x_pairs@[k]]
                0 <= k < x_pairs@.len() ==> x_pairs@[k].0.0 == x_pairs@[k].1.0 && cur.contains(
                    x_pairs@[k].0.0 as int,
                    x_pairs@[k].0.1 as int,
                ) && last.contains(x_pairs@[k].1.0 as int, x_pairs@[k].1.1 as int),
            forall|k: int|
                #![trigger y_pairs@[k]]
                0 <= k < y_pairs@.len() ==> y_pairs@[k].0.1 == y_pairs@[k].1.1 && cur.contains(
                    y_pairs@[k].0.0 as int,
                    y_pairs@[k].0.1 as int,
                ) && last.contains(y_pairs@[k].1.0 as int, y_pairs@[k].1.1 as int),
        decreases cur_all_squares@.len() - i,
    {
        let c = cur_all_squares[i];
        proof {
            lemma_cell_at_in_rect(*cur, i as int);
        }
        let mut j: usize = 0;
        while j < last_all_squares.len()
            invariant
                i < cur_all_squares@.len(),
                j <= last_all_squares@.len(),
                addressable(*cur),
                addressable(*last),
                last_all_squares@.len() == last.width * last.height,
                forall|k: int| 0 <= k < last_all_squares@.len() ==> #[trigger] last_all_squares@[k] == last.cell_at(k),
                cur.contains(c.0 as int, c.1 as int),
                forall|k: int|
                    #![trigger x_pairs@[k]]
                    0 <= k < x_pairs@.len() ==> x_pairs@[k].0.0 == x_pairs@[k].1.0 && cur.contains(
                        x_pairs@[k].0.0 as int,
                        x_pairs@[k].0.1 as int,
                    ) && last.contains(x_pairs@[k].1.0 as int, x_pairs@[k].1.1 as int),
                forall|k: int|
                    #![trigger y_pairs@[k]]
                    0 <= k < y_pairs@.len() ==> y_pairs@[k].0.1 == y_pairs@[k].1.1 && cur.contains(
                        y_pairs@[k].0.0 as int,
                        y_pairs@[k].0.1 as int,
                    ) && last.contains(y_pairs@[k].1.0 as int, y_pairs@[k].1.1 as int),
            decreases last_all_squares@.len() - j,
        {
            let l = last_all_squares[j];
            proof {
                lemma_cell_at_in_rect(*last, j as int);
            }
            if c.0 == l.0 {
                x_pairs.push((c, l));
            }
            if c.1 == l.1 {
                y_pairs.push((c, l));
            }
            j = j + 1;
        }
        i = i + 1;
    }
    let ghost start = *m;
    let c: (usize, usize);
    let l: (usize, usize);
    if x_pairs.len() > 0 {
        let k = rng.rand_index(x_pairs.len());
        c = x_pairs[k].0;
        l = x_pairs[k].1;
        carve_column(m, c, l);
    } else if y_pairs.len() > 0 {
        let k = rng.rand_index(y_pairs.len());
        c = y_pairs[k].0;
        l = y_pairs[k].1;
        carve_row(m, c, l);
    } else {
        proof {
            lemma_area_positive(*cur);
            lemma_area_positive(*last);
        }
        let ci = rng.rand_index(cur_all_squares.len());
        let li = rng.rand_index(last_all_squares.len());
        c = cur_all_squares[ci];
        l = last_all_squares[li];
        proof {
            lemma_cell_at_in_rect(*cur, ci as int);
            lemma_cell_at_in_rect(*last, li as int);
        }
        carve_dog_leg(m, c, l);
    }
    let ghost lp = (l.0 as int, l.1 as int);
    let ghost cp = (c.0 as int, c.1 as int);
    let ghost before_snap = *m;
    m.snapshot();
    assert(ring_kept(start, *m)) by {
        assert forall|x: int, y: int| #![trigger m.tile(x, y)] on_ring(start, x, y) implies m.tile(x, y)
            == start.tile(x, y) by {
            assert(before_snap.tile(x, y) == start.tile(x, y));
        }
    }
    proof {
        lemma_connected_persists(before_snap, *m, lp, cp);
        lemma_room_stays_floored(start, *m, *last);
        lemma_room_stays_floored(start, *m, *cur);
        lemma_rooms_joined_by(*m, *last, *cur, lp, cp);
    }
}

pub proof fn lemma_room_stays_floored(a: GameMap, b: GameMap, room: Rectangle)
    requires
        room_floored(a, room),
        paints_floor(a, b),
        rect_within(room, padded_interior(a)),
        a.width >= 3,
        a.height >= 3,
    ensures
        room_floored(b, room),
{
    assert forall|x: int, y: int| #[trigger] room.contains(x, y) implies b.tile(x, y)
        == GameTile::Floor by {
        assert(b.in_bounds(x, y));
        assert(b.tile(x, y) == a.tile(x, y) || b.tile(x, y) == GameTile::Floor);
    }
}

/// Splits the grid's interior into rooms joined by corridors.
pub struct BSPRoomMapGenerator {
    /// How many times the interior is split.
    pub depth: usize,
}

impl BSPRoomMapGenerator {
    /// The stage with the usual depth, `BSP_DEPTH`.
    pub fn new() -> (r: MapGenerator)
        ensures
            r == MapGenerator::Bsp(BSPRoomMapGenerator { depth: BSP_DEPTH }),
    {
        MapGenerator::Bsp(BSPRoomMapGenerator { depth: BSP_DEPTH })
    }

    /// The stage splitting the interior `depth` times.
    pub fn with_depth(depth: usize) -> (r: MapGenerator)
        ensures
            r == MapGenerator::Bsp(BSPRoomMapGenerator { depth }),
    {
        MapGenerator::Bsp(BSPRoomMapGenerator { depth })
    }

    /// What holds of every run from `in_map` to `r` that carved `rooms`:
    /// only floor was painted; each room is non-empty, lies inside the
    /// padded interior and is all floor; every cell of each room is joined
    /// to every cell of the room before it by a path of side-adjacent floor
    /// cells; a grid with an interior gets at least one room; one snapshot
    /// per room and one per corridor.
    pub open spec fn carved(self, in_map: GameMap, r: GameMap, rooms: Seq<Rectangle>) -> bool {
        let n = in_map.history_view().len();
        &&& r.wf()
        &&& r.same_frame(in_map)
        &&& paints_floor(in_map, r)
        &&& forall|i: int|
            0 <= i < rooms.len() ==> nonempty(#[trigger] rooms[i]) && rect_within(
                rooms[i],
                padded_interior(in_map),
            ) && room_floored(r, rooms[i])
        &&& forall|i: int| 0 < i < rooms.len() ==> rooms_joined(r, rooms[i - 1], #[trigger] rooms[i])
        &&& forall|i: int, j: int|
            0 <= i < j < rooms.len() ==> rect_disjoint(#[trigger] rooms[i], #[trigger] rooms[j])
        &&& ring_kept(in_map, r)
        &&& rooms.len() >= 1 ==> r.history_view().last() == r.tiles@
        &&& forall|j: int, k: int|
            n <= j < k < r.history_view().len() ==> floors_grow(
                #[trigger] r.history_view()[j],
                #[trigger] r.history_view()[k],
            )
        &&& (in_map.width >= 3 && in_map.height >= 3) <==> rooms.len() >= 1
        &&& rooms.len() <= pow2(self.depth as nat)
        &&& r.history_view().subrange(0, n as int) == in_map.history_view()
        &&& r.history_view().len() == n + if rooms.len() == 0 {
            0
        } else {
            2 * rooms.len() - 1
        }
    }

    /// Splits the padded interior `depth` times, then, leaf by leaf,
    /// floors a room inside the leaf (snapshot) and, from the second room
    /// on, a corridor to the previous room (snapshot). Returns the grid and
    /// the rooms in the order they were carved. A grid narrower or lower
    /// than three cells has no interior and is returned unchanged.
    pub fn generate_rooms(&self, in_map: GameMap, rng: &mut GameRNG) -> (r: (GameMap, Vec<Rectangle>))
        requires
            in_map.wf(),
        ensures
            self.carved(in_map, r.0, r.1@),
    {
        let mut m = in_map;
        let ghost start = m;
        let ghost n0 = start.history_view().len();
        let mut rooms: Vec<Rectangle> = Vec::new();
        if m.width < 3 || m.height < 3 {
            assert(m.history_view().subrange(0, n0 as int) =~= start.history_view());
            return (m, rooms);
        }
        let interior = Rectangle { x: 1, y: 1, width: m.width - 2, height: m.height - 2 };
        let tree = split_bsp(BSPPartition::new(interior), self.depth, rng);
        let leaves = collect_leaf(&tree);
        let mut i: usize = 0;
        while i < leaves.len()
            invariant
                start == in_map,
                start.wf(),
                start.width >= 3,
                start.height >= 3,
                interior == padded_interior(start),
                n0 == start.history_view().len(),
                i <= leaves@.len(),
                leaves@.len() >= 1,
                leaves@.len() <= pow2(self.depth as nat),
                rooms@.len() == i,
                forall|k: int|
                    0 <= k < leaves@.len() ==> nonempty(#[trigger] leaves@[k]) && rect_within(
                        leaves@[k],
                        interior,
                    ),
                m.wf(),
                m.same_frame(start),
                paints_floor(start, m),
                forall|k: int|
                    0 <= k < rooms@.len() ==> nonempty(#[trigger] rooms@[k]) && rect_within(
                        rooms@[k],
                        padded_interior(start),
                    ) && room_floored(m, rooms@[k]),
                forall|k: int| 0 < k < rooms@.len() ==> rooms_joined(m, rooms@[k - 1], #[trigger] rooms@[k]),
                forall|k: int| 0 <= k < rooms@.len() ==> rect_within(#[trigger] rooms@[k], leaves@[k]),
                forall|k: int, j: int|
                    0 <= k < j < leaves@.len() ==> rect_disjoint(#[trigger] leaves@[k], #[trigger] leaves@[j]),
                ring_kept(start, m),
                i > 0 ==> m.history_view().last() == m.tiles@,
                forall|j: int|
                    n0 <= j < m.history_view().len() ==> floors_grow(#[trigger] m.history_view()[j], m.tiles@),
                forall|j: int, k: int|
                    n0 <= j < k < m.history_view().len() ==> floors_grow(
                        #[trigger] m.history_view()[j],
                        #[trigger] m.history_view()[k],
                    ),
                m.history_view().subrange(0, n0 as int) == start.history_view(),
                m.history_view().len() == n0 + if i == 0 {
                    0
                } else {
                    2 * i - 1
                },
            decreases leaves@.len() - i,
        {
            let area = leaves[i];
            let room = room_in(&area, rng);
            let ghost before = m;
            m.draw_square(room.x, room.y, room.width, room.height, GameTile::Floor, GameTile::Floor);
            m.snapshot();
            assert forall|x: int, y: int| #[trigger] m.in_bounds(x, y) implies m.tile(x, y)
                == start.tile(x, y) || m.tile(x, y) == GameTile::Floor by {
                assert(before.tile(x, y) == start.tile(x, y) || before.tile(x, y) == GameTile::Floor);
            }
            assert(paints_floor(before, m));
            proof {
                lemma_paints_floor_grows(before, m);
                let h = m.history_view();
                assert forall|j: int| n0 <= j < h.len() implies floors_grow(#[trigger] h[j], m.tiles@) by {
                    if j < h.len() - 1 {
                        assert(h[j] == before.history_view()[j]);
                        assert(floors_grow(before.history_view()[j], before.tiles@));
                    }
                }
                assert forall|j: int, k: int| n0 <= j < k < h.len() implies floors_grow(
                    #[trigger] h[j],
                    #[trigger] h[k],
                ) by {
                    if k < h.len() - 1 {
                        assert(h[j] == before.history_view()[j] && h[k] == before.history_view()[k]);
                    } else {
                        assert(h[j] == before.history_view()[j]);
                        assert(floors_grow(before.history_view()[j], before.tiles@));
                    }
                }
            }
            assert(ring_kept(start, m)) by {
                assert forall|x: int, y: int| #![trigger m.tile(x, y)] on_ring(start, x, y) implies m.tile(x, y)
                    == start.tile(x, y) by {
                    assert(before.tile(x, y) == start.tile(x, y));
                }
            }
            assert(room_floored(m, room)) by {
                assert forall|x: int, y: int| #[trigger] room.contains(x, y) implies m.tile(x, y)
                    == GameTile::Floor by {
                    assert(m.in_bounds(x, y));
                }
            }
            assert forall|k: int| 0 <= k < rooms@.len() implies room_floored(m, #[trigger] rooms@[k]) by {
                lemma_room_stays_floored(before, m, rooms@[k]);
            }
            assert forall|k: int| 0 < k < rooms@.len() implies rooms_joined(m, rooms@[k - 1], #[trigger] rooms@[k]) by {
                lemma_joined_persists(before, m, rooms@[k - 1], rooms@[k]);
            }
            if i > 0 {
                let ghost before2 = m;
                let last = rooms[i - 1];
                connect_rooms(&mut m, &last, &room, rng);
                assert forall|x: int, y: int| #[trigger] m.in_bounds(x, y) implies m.tile(x, y)
                    == start.tile(x, y) || m.tile(x, y) == GameTile::Floor by {
                    assert(before2.tile(x, y) == start.tile(x, y) || before2.tile(x, y)
                        == GameTile::Floor);
                }
                assert forall|k: int| 0 <= k < rooms@.len() implies room_floored(m, #[trigger] rooms@[k]) by {
                    lemma_room_stays_floored(before2, m, rooms@[k]);
                }
                assert forall|k: int| 0 < k < rooms@.len() implies rooms_joined(m, rooms@[k - 1], #[trigger] rooms@[k]) by {
                    lemma_joined_persists(before2, m, rooms@[k - 1], rooms@[k]);
                }
                proof {
                    lemma_room_stays_floored(before2, m, room);
                    lemma_paints_floor_grows(before2, m);
                    let h = m.history_view();
                    assert forall|j: int| n0 <= j < h.len() implies floors_grow(#[trigger] h[j], m.tiles@) by {
                        if j < h.len() - 1 {
                            assert(h[j] == before2.history_view()[j]);
                            assert(floors_grow(before2.history_view()[j], before2.tiles@));
                        }
                    }
                    assert forall|j: int, k: int| n0 <= j < k < h.len() implies floors_grow(
                        #[trigger] h[j],
                        #[trigger] h[k],
                    ) by {
                        if k < h.len() - 1 {
                            assert(h[j] == before2.history_view()[j] && h[k] == before2.history_view()[k]);
                        } else {
                            assert(h[j] == before2.history_view()[j]);
                            assert(floors_grow(before2.history_view()[j], before2.tiles@));
                        }
                    }
                }
                assert(ring_kept(start, m)) by {
                    assert forall|x: int, y: int| #![trigger m.tile(x, y)] on_ring(start, x, y) implies m.tile(x, y)
                        == start.tile(x, y) by {
                        assert(before2.tile(x, y) == start.tile(x, y));
                    }
                }
            }
            let ghost prev_rooms = rooms@;
            rooms.push(room);
            assert forall|k: int| 0 <= k < rooms@.len() implies rect_within(#[trigger] rooms@[k], leaves@[k]) by {
                if k < prev_rooms.len() {
                    assert(rooms@[k] == prev_rooms[k]);
                }
            }
            assert forall|k: int| 0 < k < rooms@.len() implies rooms_joined(m, rooms@[k - 1], #[trigger] rooms@[k]) by {
                if k < prev_rooms.len() {
                    assert(rooms@[k - 1] == prev_rooms[k - 1] && rooms@[k] == prev_rooms[k]);
                }
            }
            assert(m.history_view().subrange(0, n0 as int) =~= start.history_view());
            i = i + 1;
        }
        assert forall|k: int, j: int|
            0 <= k < j < rooms@.len() implies rect_disjoint(#[trigger] rooms@[k], #[trigger] rooms@[j]) by {
            assert(rect_within(rooms@[k], leaves@[k]));
            assert(rect_within(rooms@[j], leaves@[j]));
            assert(rect_disjoint(leaves@[k], leaves@[j]));
        }
        (m, rooms)
    }

    /// `generate_rooms` without the list of rooms.
    pub fn generate_map(&self, in_map: GameMap, rng: &mut GameRNG) -> (r: GameMap)
        requires
            in_map.wf(),
        ensures
            exists|rooms: Seq<Rectangle>| self.carved(in_map, r, rooms),
    {
        let (m, rooms) = self.generate_rooms(in_map, rng);
        m
    }

    /// This stage proposes no spawn position.
    pub fn get_player_spawn(&self, in_map: &GameMap, rng: &mut GameRNG) -> (r: Option<Position>)
        ensures
            r is None,
    {
        None
    }
}

/// Every room a BSP run carves keeps off the outer ring of the grid, and
/// each room is reachable from the room before it through side-adjacent
/// floor cells.
pub proof fn law_bsp_rooms_inside_and_connected(
    g: BSPRoomMapGenerator,
    in_map: GameMap,
    r: GameMap,
    rooms: Seq<Rectangle>,
)
    requires
        g.carved(in_map, r, rooms),
    ensures
        forall|i: int|
            0 <= i < rooms.len() ==> 1 <= (#[trigger] rooms[i]).x && rooms[i].x + rooms[i].width
                <= in_map.width - 1 && 1 <= rooms[i].y && rooms[i].y + rooms[i].height <= in_map.height
                - 1,
        forall|i: int, ax: int, ay: int, bx: int, by: int|
            #![trigger rooms[i - 1].contains(ax, ay), rooms[i].contains(bx, by)]
            0 < i < rooms.len() && rooms[i - 1].contains(ax, ay) && rooms[i].contains(bx, by)
                ==> floor_connected(r, (ax, ay), (bx, by)),
{
    assert forall|i: int, ax: int, ay: int, bx: int, by: int|
        #![trigger rooms[i - 1].contains(ax, ay), rooms[i].contains(bx, by)]
        0 < i < rooms.len() && rooms[i - 1].contains(ax, ay) && rooms[i].contains(bx, by)
            implies floor_connected(r, (ax, ay), (bx, by)) by {
        assert(rooms_joined(r, rooms[i - 1], rooms[i]));
    }
}

} // verus!
