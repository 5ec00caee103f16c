//! A square grid of tree heights: counting the trees visible from outside
//! the grid, and scoring each tree by how far it can see in the four
//! directions.

use vstd::prelude::*;
use vstd::string::StrSliceExecFns;

use crate::parsing::{digit_val, is_digit};

verus! {

/// The grid of tree heights, row by row.
#[derive(Debug)]
pub struct Forest {
    grid: Vec<Vec<u32>>,
}

/// Every row is as long as the grid is tall.
pub open spec fn square(g: Seq<Seq<u32>>) -> bool {
    forall|y: int| 0 <= y < g.len() ==> (#[trigger] g[y]).len() == g.len()
}

/// The tree at (`x`, `y`) is taller than everything left of it.
pub open spec fn vis_left(g: Seq<Seq<u32>>, x: int, y: int) -> bool {
    forall|cx: int| 0 <= cx < x ==> g[y][cx] < g[y][x]
}

/// The tree at (`x`, `y`) is taller than everything above it.
pub open spec fn vis_top(g: Seq<Seq<u32>>, x: int, y: int) -> bool {
    forall|cy: int| 0 <= cy < y ==> g[cy][x] < g[y][x]
}

/// The tree at (`x`, `y`) is taller than everything right of it.
pub open spec fn vis_right(g: Seq<Seq<u32>>, x: int, y: int) -> bool {
    forall|cx: int| x < cx < g.len() ==> g[y][cx] < g[y][x]
}

/// The tree at (`x`, `y`) is taller than everything below it.
pub open spec fn vis_bottom(g: Seq<Seq<u32>>, x: int, y: int) -> bool {
    forall|cy: int| y < cy < g.len() ==> g[cy][x] < g[y][x]
}

/// The tree is visible from at least one side.
pub open spec fn vis(g: Seq<Seq<u32>>, x: int, y: int) -> bool {
    vis_left(g, x, y) || vis_top(g, x, y) || vis_right(g, x, y) || vis_bottom(g, x, y)
}

/// Visible trees among the first `x` of row `y`.
pub open spec fn count_row(g: Seq<Seq<u32>>, y: int, x: int) -> int
    decreases x,
{
    if x <= 0 {
        0
    } else {
        count_row(g, y, x - 1) + if vis(g, x - 1, y) {
            1int
        } else {
            0int
        }
    }
}

/// Visible trees in the first `y` rows.
pub open spec fn count_grid(g: Seq<Seq<u32>>, y: int) -> int
    decreases y,
{
    if y <= 0 {
        0
    } else {
        count_grid(g, y - 1) + count_row(g, y - 1, g.len() as int)
    }
}

/// Trees seen looking up from row `cy` in column `x`, by a tree of height
/// `h`: everything to the first tree at least as tall, or to the edge.
pub open spec fn dist_up(g: Seq<Seq<u32>>, x: int, h: u32, cy: int) -> int
    decreases cy + 1,
{
    if cy < 0 {
        0
    } else if g[cy][x] >= h {
        1
    } else {
        1 + dist_up(g, x, h, cy - 1)
    }
}

/// Trees seen looking down from row `cy`.
pub open spec fn dist_down(g: Seq<Seq<u32>>, x: int, h: u32, cy: int) -> int
    decreases g.len() - cy,
{
    if cy >= g.len() {
        0
    } else if g[cy][x] >= h {
        1
    } else {
        1 + dist_down(g, x, h, cy + 1)
    }
}

/// Trees seen looking left from column `cx` in row `y`.
pub open spec fn dist_left(g: Seq<Seq<u32>>, y: int, h: u32, cx: int) -> int
    decreases cx + 1,
{
    if cx < 0 {
        0
    } else if g[y][cx] >= h {
        1
    } else {
        1 + dist_left(g, y, h, cx - 1)
    }
}

/// Trees seen looking right from column `cx` in row `y`.
pub open spec fn dist_right(g: Seq<Seq<u32>>, y: int, h: u32, cx: int) -> int
    decreases g.len() - cx,
{
    if cx >= g.len() {
        0
    } else if g[y][cx] >= h {
        1
    } else {
        1 + dist_right(g, y, h, cx + 1)
    }
}

/// A tree's scenic score: the product of its four viewing distances, zero on
/// the grid's edge.
pub open spec fn scenic(g: Seq<Seq<u32>>, x: int, y: int) -> int {
    if x == 0 || x == g.len() - 1 || y == 0 || y == g.len() - 1 {
        0
    } else {
        let h = g[y][x];
        dist_up(g, x, h, y - 1) * dist_left(g, y, h, x - 1) * dist_right(g, y, h, x + 1)
            * dist_down(g, x, h, y + 1)
    }
}

/// The best scenic score among row `y`'s first `x` trees and all rows above.
pub open spec fn best_scenic(g: Seq<Seq<u32>>, y: int, x: int) -> int
    decreases y, x,
{
    if y <= 0 {
        0
    } else if x <= 0 {
        best_scenic(g, y - 1, g.len() as int)
    } else {
        let rest = best_scenic(g, y, x - 1);
        if scenic(g, x - 1, y - 1) > rest {
            scenic(g, x - 1, y - 1)
        } else {
            rest
        }
    }
}

/// Upward viewing distance never reaches past the edge.
proof fn lemma_dist_up_bound(g: Seq<Seq<u32>>, x: int, h: u32, cy: int)
    requires
        cy >= -1,
    ensures
        dist_up(g, x, h, cy) <= cy + 1,
        dist_up(g, x, h, cy) >= 0,
    decreases cy + 1,
{
    if cy >= 0 && g[cy][x] < h {
        lemma_dist_up_bound(g, x, h, cy - 1);
    }
}

/// Downward viewing distance never reaches past the edge.
proof fn lemma_dist_down_bound(g: Seq<Seq<u32>>, x: int, h: u32, cy: int)
    requires
        0 <= cy <= g.len(),
    ensures
        dist_down(g, x, h, cy) <= g.len() - cy,
        dist_down(g, x, h, cy) >= 0,
    decreases g.len() - cy,
{
    if cy < g.len() && g[cy][x] < h {
        lemma_dist_down_bound(g, x, h, cy + 1);
    }
}

/// Leftward viewing distance never reaches past the edge.
proof fn lemma_dist_left_bound(g: Seq<Seq<u32>>, y: int, h: u32, cx: int)
    requires
        cx >= -1,
    ensures
        dist_left(g, y, h, cx) <= cx + 1,
        dist_left(g, y, h, cx) >= 0,
    decreases cx + 1,
{
    if cx >= 0 && g[y][cx] < h {
        lemma_dist_left_bound(g, y, h, cx - 1);
    }
}

/// Rightward viewing distance never reaches past the edge.
proof fn lemma_dist_right_bound(g: Seq<Seq<u32>>, y: int, h: u32, cx: int)
    requires
        0 <= cx <= g.len(),
    ensures
        dist_right(g, y, h, cx) <= g.len() - cx,
        dist_right(g, y, h, cx) >= 0,
    decreases g.len() - cx,
{
    if cx < g.len() && g[y][cx] < h {
        lemma_dist_right_bound(g, y, h, cx + 1);
    }
}

/// Visible-tree counts never exceed the cells counted.
proof fn lemma_count_row_bound(g: Seq<Seq<u32>>, y: int, x: int)
    requires
        x >= 0,
    ensures
        0 <= count_row(g, y, x) <= x,
    decreases x,
{
    if x > 0 {
        lemma_count_row_bound(g, y, x - 1);
    }
}

/// The grid count never exceeds the cells counted.
proof fn lemma_count_grid_bound(g: Seq<Seq<u32>>, y: int)
    requires
        y >= 0,
    ensures
        0 <= count_grid(g, y) <= y * g.len(),
    decreases y,
{
    if y > 0 {
        lemma_count_grid_bound(g, y - 1);
        lemma_count_row_bound(g, y - 1, g.len() as int);
        assert((y - 1) * g.len() + g.len() == y * g.len()) by (nonlinear_arith);
    }
}

impl Forest {
    pub closed spec fn spec_grid(&self) -> Seq<Seq<u32>> {
        Seq::new(self.grid@.len(), |i: int| self.grid@[i]@)
    }

    pub fn new() -> (r: Self)
        ensures
            r.spec_grid() == Seq::<Seq<u32>>::empty(),
    {
        let f = Self { grid: Vec::new() };
        proof {
            assert(f.spec_grid() =~= Seq::<Seq<u32>>::empty());
        }
        f
    }

    /// Append one row of single-digit tree heights.
    pub fn add_line(&mut self, line: String)
        requires
            forall|i: int| 0 <= i < line@.len() ==> is_digit(line@[i]),
        ensures
            final(self).spec_grid().len() == old(self).spec_grid().len() + 1,
            final(self).spec_grid().drop_last() == old(self).spec_grid(),
            final(self).spec_grid().last().len() == line@.len(),
            forall|i: int|
                0 <= i < line@.len() ==> final(self).spec_grid().last()[i] == digit_val(line@[i]),
    {
        let mut new_line: Vec<u32> = Vec::new();
        let n = line.as_str().unicode_len();
        let mut i: usize = 0;
        while i < n
            invariant
                n == line@.len(),
                i <= n,
                forall|k: int| 0 <= k < n ==> is_digit(line@[k]),
                new_line@.len() == i,
                forall|k: int| 0 <= k < i ==> new_line@[k] == digit_val(line@[k]),
            decreases n - i,
        {
            let ch = line.as_str().get_char(i);
            new_line.push((ch as u32) - ('0' as u32));
            i = i + 1;
        }
        self.grid.push(new_line);
        proof {
            assert(self.spec_grid().drop_last() =~= old(self).spec_grid());
        }
    }

    fn is_visible_from_left(&self, x: usize, y: usize) -> (r: bool)
        requires
            square(self.spec_grid()),
            x < self.spec_grid().len(),
            y < self.spec_grid().len(),
        ensures
            r == vis_left(self.spec_grid(), x as int, y as int),
    {
        proof {
            assert(self.spec_grid()[y as int] == self.grid@[y as int]@);
            assert(self.spec_grid()[y as int].len() == self.spec_grid().len());
        }
        let height = self.grid[y][x];
        let mut check_x: usize = 0;
        while check_x < x
            invariant
                square(self.spec_grid()),
                x < self.spec_grid().len(),
                y < self.spec_grid().len(),
                check_x <= x,
                height == self.spec_grid()[y as int][x as int],
                forall|cx: int| 0 <= cx < check_x ==> self.spec_grid()[y as int][cx] < height,
            decreases x - check_x,
        {
            proof {
                assert(self.spec_grid()[y as int] == self.grid@[y as int]@);
                assert(self.spec_grid()[y as int].len() == self.spec_grid().len());
            }
            if self.grid[y][check_x] >= height {
                return false;
            }
            check_x = check_x + 1;
        }
        true
    }

    fn is_visible_from_top(&self, x: usize, y: usize) -> (r: bool)
        requires
            square(self.spec_grid()),
            x < self.spec_grid().len(),
            y < self.spec_grid().len(),
        ensures
            r == vis_top(self.spec_grid(), x as int, y as int),
    {
        proof {
            assert(self.spec_grid()[y as int] == self.grid@[y as int]@);
            assert(self.spec_grid()[y as int].len() == self.spec_grid().len());
        }
        let height = self.grid[y][x];
        let mut check_y: usize = 0;
        while check_y < y
            invariant
                square(self.spec_grid()),
                x < self.spec_grid().len(),
                y < self.spec_grid().len(),
                check_y <= y,
                height == self.spec_grid()[y as int][x as int],
                forall|cy: int| 0 <= cy < check_y ==> self.spec_grid()[cy][x as int] < height,
            decreases y - check_y,
        {
            proof {
                assert(self.spec_grid()[check_y as int] == self.grid@[check_y as int]@);
                assert(self.spec_grid()[check_y as int].len() == self.spec_grid().len());
            }
            if self.grid[check_y][x] >= height {
                return false;
            }
            check_y = check_y + 1;
        }
        true
    }

    fn is_visible_from_right(&self, x: usize, y: usize) -> (r: bool)
        requires
            square(self.spec_grid()),
            x < self.spec_grid().len(),
            y < self.spec_grid().len(),
        ensures
            r == vis_right(self.spec_grid(), x as int, y as int),
    {
        proof {
            assert(self.spec_grid()[y as int] == self.grid@[y as int]@);
            assert(self.spec_grid()[y as int].len() == self.spec_grid().len());
        }
        let height = self.grid[y][x];
        let size = self.grid.len();
        let mut check_x: usize = x + 1;
        while check_x < size
            invariant
                square(self.spec_grid()),
                x < self.spec_grid().len(),
                y < self.spec_grid().len(),
                size == self.spec_grid().len(),
                x + 1 <= check_x <= size,
                height == self.spec_grid()[y as int][x as int],
                forall|cx: int| x < cx < check_x ==> self.spec_grid()[y as int][cx] < height,
            decreases size - check_x,
        {
            proof {
                assert(self.spec_grid()[y as int] == self.grid@[y as int]@);
                assert(self.spec_grid()[y as int].len() == self.spec_grid().len());
            }
            if self.grid[y][check_x] >= height {
                return false;
            }
            check_x = check_x + 1;
        }
        true
    }

    fn is_visible_from_bottom(&self, x: usize, y: usize) -> (r: bool)
        requires
            square(self.spec_grid()),
            x < self.spec_grid().len(),
            y < self.spec_grid().len(),
        ensures
            r == vis_bottom(self.spec_grid(), x as int, y as int),
    {
        proof {
            assert(self.spec_grid()[y as int] == self.grid@[y as int]@);
            assert(self.spec_grid()[y as int].len() == self.spec_grid().len());
        }
        let height = self.grid[y][x];
        let size = self.grid.len();
        let mut check_y: usize = y + 1;
        while check_y < size
            invariant
                square(self.spec_grid()),
                x < self.spec_grid().len(),
                y < self.spec_grid().len(),
                size == self.spec_grid().len(),
                y + 1 <= check_y <= size,
                height == self.spec_grid()[y as int][x as int],
                forall|cy: int| y < cy < check_y ==> self.spec_grid()[cy][x as int] < height,
            decreases size - check_y,
        {
            proof {
                assert(self.spec_grid()[check_y as int] == self.grid@[check_y as int]@);
                assert(self.spec_grid()[check_y as int].len() == self.spec_grid().len());
            }
            if self.grid[check_y][x] >= height {
                return false;
            }
            check_y = check_y + 1;
        }
        true
    }

    fn is_visible(&self, x: usize, y: usize) -> (r: bool)
        requires
            square(self.spec_grid()),
            x < self.spec_grid().len(),
            y < self.spec_grid().len(),
        ensures
            r == vis(self.spec_grid(), x as int, y as int),
    {
        self.is_visible_from_left(x, y) || self.is_visible_from_top(x, y)
            || self.is_visible_from_right(x, y) || self.is_visible_from_bottom(x, y)
    }

    /// How many trees can be seen from somewhere outside the grid.
    pub fn count_visible(&self) -> (r: u32)
        requires
            square(self.spec_grid()),
            self.spec_grid().len() <= 65535,
        ensures
            r == count_grid(self.spec_grid(), self.spec_grid().len() as int),
    {
        let size = self.grid.len();
        let mut total_visible: u32 = 0;
        let mut y: usize = 0;
        while y < size
            invariant
                square(self.spec_grid()),
                size == self.spec_grid().len(),
                size <= 65535,
                y <= size,
                total_visible == count_grid(self.spec_grid(), y as int),
                total_visible <= y * size,
            decreases size - y,
        {
            let mut x: usize = 0;
            while x < size
                invariant
                    square(self.spec_grid()),
                    size == self.spec_grid().len(),
                    size <= 65535,
                    y < size,
                    x <= size,
                    total_visible == count_grid(self.spec_grid(), y as int) + count_row(
                        self.spec_grid(),
                        y as int,
                        x as int,
                    ),
                    total_visible <= y * size + x,
                decreases size - x,
            {
                proof {
                    lemma_count_grid_bound(self.spec_grid(), y as int);
                    lemma_count_row_bound(self.spec_grid(), y as int, x as int);
                    assert(y * size + size <= 65535 * 65535) by (nonlinear_arith)
                        requires
                            y < size,
                            size <= 65535,
                    ;
                }
                total_visible = total_visible + if self.is_visible(x, y) {
                    1
                } else {
                    0
                };
                x = x + 1;
            }
            proof {
                assert((y + 1) * size == y * size + size) by (nonlinear_arith);
            }
            y = y + 1;
        }
        total_visible
    }

    fn get_scenic_top(&self, x: usize, y: usize) -> (r: u32)
        requires
            square(self.spec_grid()),
            x < self.spec_grid().len(),
            y < self.spec_grid().len(),
            self.spec_grid().len() <= 65535,
        ensures
            r == dist_up(self.spec_grid(), x as int, self.spec_grid()[y as int][x as int], y - 1),
    {
        let mut total_trees: u32 = 0;
        proof {
            assert(self.spec_grid()[y as int] == self.grid@[y as int]@);
            assert(self.spec_grid()[y as int].len() == self.spec_grid().len());
        }
        let height = self.grid[y][x];
        let mut new_y: usize = y;
        while new_y > 0
            invariant
                square(self.spec_grid()),
                x < self.spec_grid().len(),
                y < self.spec_grid().len(),
                new_y <= y,
                self.spec_grid().len() <= 65535,
                height == self.spec_grid()[y as int][x as int],
                total_trees == y - new_y,
                dist_up(self.spec_grid(), x as int, height, y - 1) == total_trees + dist_up(
                    self.spec_grid(),
                    x as int,
                    height,
                    new_y - 1,
                ),
            decreases new_y,
        {
            proof {
                lemma_dist_up_bound(self.spec_grid(), x as int, height, new_y - 2);
            }
            proof {
                assert(self.spec_grid()[new_y - 1] == self.grid@[new_y - 1]@);
                assert(self.spec_grid()[new_y - 1].len() == self.spec_grid().len());
            }
            if self.grid[new_y - 1][x] >= height {
                return total_trees + 1;
            } else {
                total_trees = total_trees + 1;
                new_y = new_y - 1;
            }
        }
        total_trees
    }

    fn get_scenic_bottom(&self, x: usize, y: usize) -> (r: u32)
        requires
            square(self.spec_grid()),
            x < self.spec_grid().len(),
            y < self.spec_grid().len(),
            self.spec_grid().len() <= 65535,
        ensures
            r == dist_down(self.spec_grid(), x as int, self.spec_grid()[y as int][x as int], y + 1),
    {
        let mut total_trees: u32 = 0;
        proof {
            assert(self.spec_grid()[y as int] == self.grid@[y as int]@);
            assert(self.spec_grid()[y as int].len() == self.spec_grid().len());
        }
        let height = self.grid[y][x];
        let size = self.grid.len();
        let mut new_y: usize = y + 1;
        while new_y < size
            invariant
                square(self.spec_grid()),
                x < self.spec_grid().len(),
                y < self.spec_grid().len(),
                size == self.spec_grid().len(),
                y + 1 <= new_y <= size,
                self.spec_grid().len() <= 65535,
                height == self.spec_grid()[y as int][x as int],
                total_trees == new_y - y - 1,
                dist_down(self.spec_grid(), x as int, height, y + 1) == total_trees + dist_down(
                    self.spec_grid(),
                    x as int,
                    height,
                    new_y as int,
                ),
            decreases size - new_y,
        {
            proof {
                lemma_dist_down_bound(self.spec_grid(), x as int, height, new_y + 1);
            }
            proof {
                assert(self.spec_grid()[new_y as int] == self.grid@[new_y as int]@);
                assert(self.spec_grid()[new_y as int].len() == self.spec_grid().len());
            }
            if self.grid[new_y][x] >= height {
                return total_trees + 1;
            } else {
                total_trees = total_trees + 1;
                new_y = new_y + 1;
            }
        }
        total_trees
    }

    fn get_scenic_left(&self, x: usize, y: usize) -> (r: u32)
        requires
            square(self.spec_grid()),
            x < self.spec_grid().len(),
            y < self.spec_grid().len(),
            self.spec_grid().len() <= 65535,
        ensures
            r == dist_left(self.spec_grid(), y as int, self.spec_grid()[y as int][x as int], x - 1),
    {
        let mut total_trees: u32 = 0;
        proof {
            assert(self.spec_grid()[y as int] == self.grid@[y as int]@);
            assert(self.spec_grid()[y as int].len() == self.spec_grid().len());
        }
        let height = self.grid[y][x];
        let mut new_x: usize = x;
        while new_x > 0
            invariant
                square(self.spec_grid()),
                x < self.spec_grid().len(),
                y < self.spec_grid().len(),
                new_x <= x,
                self.spec_grid().len() <= 65535,
                height == self.spec_grid()[y as int][x as int],
                total_trees == x - new_x,
                dist_left(self.spec_grid(), y as int, height, x - 1) == total_trees + dist_left(
                    self.spec_grid(),
                    y as int,
                    height,
                    new_x - 1,
                ),
            decreases new_x,
        {
            proof {
                lemma_dist_left_bound(self.spec_grid(), y as int, height, new_x - 2);
            }
            proof {
                assert(self.spec_grid()[y as int] == self.grid@[y as int]@);
                assert(self.spec_grid()[y as int].len() == self.spec_grid().len());
            }
            if self.grid[y][new_x - 1] >= height {
                return total_trees + 1;
            } else {
                total_trees = total_trees + 1;
                new_x = new_x - 1;
            }
        }
        total_trees
    }

    fn get_scenic_right(&self, x: usize, y: usize) -> (r: u32)
        requires
            square(self.spec_grid()),
            x < self.spec_grid().len(),
            y < self.spec_grid().len(),
            self.spec_grid().len() <= 65535,
        ensures
            r == dist_right(
                self.spec_grid(),
                y as int,
                self.spec_grid()[y as int][x as int],
                x + 1,
            ),
    {
        let mut total_trees: u32 = 0;
        proof {
            assert(self.spec_grid()[y as int] == self.grid@[y as int]@);
            assert(self.spec_grid()[y as int].len() == self.spec_grid().len());
        }
        let height = self.grid[y][x];
        let size = self.grid.len();
        let mut new_x: usize = x + 1;
        while new_x < size
            invariant
                square(self.spec_grid()),
                x < self.spec_grid().len(),
                y < self.spec_grid().len(),
                size == self.spec_grid().len(),
                x + 1 <= new_x <= size,
                self.spec_grid().len() <= 65535,
                height == self.spec_grid()[y as int][x as int],
                total_trees == new_x - x - 1,
                dist_right(self.spec_grid(), y as int, height, x + 1) == total_trees + dist_right(
                    self.spec_grid(),
                    y as int,
                    height,
                    new_x as int,
                ),
            decreases size - new_x,
        {
            proof {
                lemma_dist_right_bound(self.spec_grid(), y as int, height, new_x + 1);
            }
            proof {
                assert(self.spec_grid()[y as int] == self.grid@[y as int]@);
                assert(self.spec_grid()[y as int].len() == self.spec_grid().len());
            }
            if self.grid[y][new_x] >= height {
                return total_trees + 1;
            } else {
                total_trees = total_trees + 1;
                new_x = new_x + 1;
            }
        }
        total_trees
    }

    fn get_scenic(&self, x: usize, y: usize) -> (r: u32)
        requires
            square(self.spec_grid()),
            x < self.spec_grid().len(),
            y < self.spec_grid().len(),
            self.spec_grid().len() <= 255,
        ensures
            r == scenic(self.spec_grid(), x as int, y as int),
    {
        let size = self.grid.len();
        if x == 0 || x == size - 1 || y == 0 || y == size - 1 {
            0
        } else {
            let up = self.get_scenic_top(x, y);
            let left = self.get_scenic_left(x, y);
            let right = self.get_scenic_right(x, y);
            let down = self.get_scenic_bottom(x, y);
            proof {
                let g = self.spec_grid();
                let h = g[y as int][x as int];
                lemma_dist_up_bound(g, x as int, h, y - 1);
                lemma_dist_left_bound(g, y as int, h, x - 1);
                lemma_dist_right_bound(g, y as int, h, x + 1);
                lemma_dist_down_bound(g, x as int, h, y + 1);
                assert(up * left <= 65025 && up * left >= 0) by (nonlinear_arith)
                    requires
                        0 <= up <= 255,
                        0 <= left <= 255,
                ;
                assert((up * left) * right <= 16581375 && (up * left) * right >= 0)
                    by (nonlinear_arith)
                    requires
                        0 <= up * left <= 65025,
                        0 <= right <= 255,
                ;
                assert(((up * left) * right) * down <= 4228250625 && ((up * left) * right) * down
                    >= 0) by (nonlinear_arith)
                    requires
                        0 <= (up * left) * right <= 16581375,
                        0 <= down <= 255,
                ;
            }
            let total = up * left * right * down;
            total
        }
    }

    /// The best scenic score in the whole grid.
    pub fn get_highest_scenic(&self) -> (r: u32)
        requires
            square(self.spec_grid()),
            self.spec_grid().len() <= 255,
        ensures
            r == best_scenic(
                self.spec_grid(),
                self.spec_grid().len() as int,
                self.spec_grid().len() as int,
            ),
    {
        let size = self.grid.len();
        let mut largest: u32 = 0;
        let mut y: usize = 0;
        while y < size
            invariant
                square(self.spec_grid()),
                size == self.spec_grid().len(),
                size <= 255,
                y <= size,
                largest == best_scenic(self.spec_grid(), y as int, size as int),
            decreases size - y,
        {
            let mut x: usize = 0;
            while x < size
                invariant
                    square(self.spec_grid()),
                    size == self.spec_grid().len(),
                    size <= 255,
                    y < size,
                    x <= size,
                    largest == best_scenic(self.spec_grid(), y + 1, x as int),
                decreases size - x,
            {
                let scenic_score = self.get_scenic(x, y);
                if scenic_score > largest {
                    largest = scenic_score;
                }
                x = x + 1;
            }
            y = y + 1;
        }
        largest
    }
}

} // verus!
