//! Plain coordinates and axis-aligned rectangles.
use vstd::prelude::*;
use vstd::arithmetic::div_mod::lemma_fundamental_div_mod_converse;

verus! {

/// A signed pair of coordinates, as a screen or mouse position.
#[derive(Clone, Copy, Debug, PartialEq, Eq, Structural)]
pub struct Point {
    pub x: i32,
    pub y: i32,
}

impl Point {
    pub fn new(x: i32, y: i32) -> (r: Point)
        ensures
            r.x == x,
            r.y == y,
    {
        Point { x, y }
    }
}

/// A map coordinate: a cell of the grid, a node of a path, a visible cell.
/// Two positions are equal when both coordinates are.
#[derive(Clone, Copy, Debug, PartialEq, Eq, Hash, Structural)]
pub struct Position {
    pub x: i32,
    pub y: i32,
}

/// An axis-aligned rectangle of cells: columns `x .. x + width` and rows
/// `y .. y + height`.
#[derive(Clone, Copy, Debug, PartialEq, Eq, Structural)]
pub struct Rectangle {
    pub x: usize,
    pub y: usize,
    pub width: usize,
    pub height: usize,
}

impl Rectangle {
    /// Whether the cell `(px, py)` lies in the rectangle.
    pub open spec fn contains(self, px: int, py: int) -> bool {
        self.x <= px < self.x + self.width && self.y <= py < self.y + self.height
    }

    /// The cell at position `i` of the column-by-column listing of the rectangle.
    pub open spec fn cell_at(self, i: int) -> (usize, usize) {
        ((self.x + i / self.height as int) as usize, (self.y + i % self.height as int) as usize)
    }

    /// The middle cell, rounding toward the origin.
    pub fn center(&self) -> (r: (usize, usize))
        requires
            self.x + self.width / 2 <= usize::MAX,
            self.y + self.height / 2 <= usize::MAX,
        ensures
            r.0 == self.x + self.width / 2,
            r.1 == self.y + self.height / 2,
    {
        (self.x + self.width / 2, self.y + self.height / 2)
    }

    /// Every cell of the rectangle, column by column and top to bottom
    /// within a column.
    pub fn all_squares(&self) -> (r: Vec<(usize, usize)>)
        requires
            self.x + self.width <= usize::MAX,
            self.y + self.height <= usize::MAX,
        ensures
            r@.len() == self.width * self.height,
            forall|i: int| 0 <= i < r@.len() ==> #[trigger] r@[i] == self.cell_at(i),
    {
        let mut res: Vec<(usize, usize)> = Vec::new();
        let mut a: usize = 0;
        while a < self.width
            invariant
                a <= self.width,
                self.x + self.width <= usize::MAX,
                self.y + self.height <= usize::MAX,
                res@.len() == a * self.height,
                forall|i: int| 0 <= i < res@.len() ==> #[trigger] res@[i] == self.cell_at(i),
            decreases self.width - a,
        {
            let mut b: usize = 0;
            while b < self.height
                invariant
                    a < self.width,
                    b <= self.height,
                    self.x + self.width <= usize::MAX,
                    self.y + self.height <= usize::MAX,
                    res@.len() == a * self.height + b,
                    forall|i: int| 0 <= i < res@.len() ==> #[trigger] res@[i] == self.cell_at(i),
                decreases self.height - b,
            {
                proof {
                    lemma_fundamental_div_mod_converse(
                        a * self.height + b,
                        self.height as int,
                        a as int,
                        b as int,
                    );
                }
                res.push((self.x + a, self.y + b));
                b = b + 1;
            }
            assert(res@.len() == (a + 1) * self.height) by (nonlinear_arith)
                requires
                    res@.len() == a * self.height + self.height,
            ;
            a = a + 1;
        }
        res
    }
}

} // verus!
