//! A grid of fuel cells: the square of three by three cells with the most
//! power, and the square of any size with the most power.

use crate::text::{as_usize, chars_of, decimal, opt_view, push_decimal, read_usize, string_of, trim, trimmed};
use crate::tally::fits;
use vstd::prelude::*;

verus! {

/// A table of sums: the entry at column `x`, row `y` is the sum of the cells
/// from the first column and row up to there.
pub struct SumGrid {
    pub grid: Vec<Vec<isize>>,
}

impl SumGrid {
    /// The number of rows.
    pub open spec fn height(&self) -> nat {
        self.grid.len() as nat
    }

    /// The number of columns.
    pub open spec fn width(&self) -> nat {
        if self.grid.len() > 0 {
            self.grid[0].len() as nat
        } else {
            0
        }
    }

    /// Every row has the same number of entries.
    pub open spec fn wf(&self) -> bool {
        forall|y: int| 0 <= y < self.grid.len() ==> (#[trigger] self.grid[y]).len() == self.width()
    }

    /// The entry at column `x`, row `y`; zero before the first column or
    /// row.
    pub open spec fn entry(&self, x: int, y: int) -> int {
        if 0 <= y < self.grid.len() && 0 <= x < self.grid[y].len() {
            self.grid[y][x] as int
        } else {
            0
        }
    }

    /// The cell at column `x`, row `y`: what the entry there adds to the
    /// entries beside it.
    pub open spec fn cell(&self, x: int, y: int) -> int {
        self.entry(x, y) - self.entry(x - 1, y) - self.entry(x, y - 1) + self.entry(x - 1, y - 1)
    }

    /// The sum of the cells of column `x` in the rows from `y0` up to, not
    /// including, `y1`.
    pub open spec fn column_sum(&self, x: int, y0: int, y1: int) -> int
        decreases y1 - y0,
    {
        if y1 <= y0 {
            0
        } else {
            self.column_sum(x, y0, y1 - 1) + self.cell(x, y1 - 1)
        }
    }

    /// The sum of the cells in the columns from `x0` up to `x1` and the rows
    /// from `y0` up to `y1`, the upper bounds not included.
    pub open spec fn rect_sum(&self, x0: int, x1: int, y0: int, y1: int) -> int
        decreases x1 - x0,
    {
        if x1 <= x0 {
            0
        } else {
            self.rect_sum(x0, x1 - 1, y0, y1) + self.column_sum(x1 - 1, y0, y1)
        }
    }

    /// The sum of a column of cells is a difference of four entries.
    pub proof fn column_sum_telescopes(&self, x: int, y0: int, y1: int)
        requires
            0 <= y0 <= y1 <= self.height(),
            0 <= x < self.width(),
            self.wf(),
        ensures
            self.column_sum(x, y0, y1) == self.entry(x, y1 - 1) - self.entry(x - 1, y1 - 1)
                - self.entry(x, y0 - 1) + self.entry(x - 1, y0 - 1),
        decreases y1 - y0,
    {
        if y0 < y1 {
            self.column_sum_telescopes(x, y0, y1 - 1);
        }
    }

    /// The sum of a rectangle of cells is a difference of four entries.
    pub proof fn rect_sum_telescopes(&self, x0: int, x1: int, y0: int, y1: int)
        requires
            0 <= x0 <= x1 <= self.width(),
            0 <= y0 <= y1 <= self.height(),
            self.wf(),
        ensures
            self.rect_sum(x0, x1, y0, y1) == self.entry(x1 - 1, y1 - 1) - self.entry(x0 - 1, y1 - 1)
                - self.entry(x1 - 1, y0 - 1) + self.entry(x0 - 1, y0 - 1),
        decreases x1 - x0,
    {
        if x0 < x1 {
            self.rect_sum_telescopes(x0, x1 - 1, y0, y1);
            self.column_sum_telescopes(x1 - 1, y0, y1);
        }
    }

    /// Entry `i` of the row that follows the table, for the cells `cells`:
    /// its cell and the entries to its left and above, less the entry above
    /// to the left.
    pub open spec fn row_entry(&self, cells: Seq<isize>, i: int) -> int
        decreases i + 1,
    {
        if i < 0 {
            0
        } else {
            cells[i] + self.row_entry(cells, i - 1) + self.entry(i, self.grid.len() - 1)
                - self.entry(i - 1, self.grid.len() - 1)
        }
    }

    /// Entry `i` of the row that follows the table can be computed: the
    /// cell and the entry above, those and the entry to the left, and the
    /// entry itself all fit in an `isize`.
    pub open spec fn row_fits(&self, cells: Seq<isize>, i: int) -> bool {
        &&& fits(cells[i] + self.entry(i, self.grid.len() - 1))
        &&& fits(cells[i] + self.entry(i, self.grid.len() - 1) + self.row_entry(cells, i - 1))
        &&& fits(self.row_entry(cells, i))
    }

    /// The next row of the table of sums, for the cells `cells`. `None`
    /// where an entry cannot be computed in an `isize`.
    pub fn next_row(&self, cells: &Vec<isize>, w: usize) -> (r: Option<Vec<isize>>)
        requires
            self.wf(),
            w <= cells.len(),
            self.grid.len() > 0 ==> self.width() == w,
        ensures
            match r {
                Some(row) => {
                    &&& row.len() == w
                    &&& forall|i: int| 0 <= i < w ==> #[trigger] row[i] == self.row_entry(cells@, i)
                    &&& forall|i: int| 0 <= i < w ==> #[trigger] self.row_fits(cells@, i)
                },
                None => exists|i: int| 0 <= i < w && !#[trigger] self.row_fits(cells@, i),
            },
    {
        let y: usize = self.grid.len();
        let mut row: Vec<isize> = Vec::new();
        let mut x: usize = 0;
        while x < w
            invariant
                x <= w,
                w <= cells.len(),
                y == self.grid.len(),
                self.wf(),
                y > 0 ==> self.width() == w,
                row.len() == x,
                forall|i: int| 0 <= i < x ==> #[trigger] row[i] == self.row_entry(cells@, i),
                forall|i: int| 0 <= i < x ==> #[trigger] self.row_fits(cells@, i),
            decreases w - x,
        {
            let up: isize = if y > 0 {
                self.grid[y - 1][x]
            } else {
                0
            };
            let left: isize = if x > 0 {
                assert(row[x - 1] == self.row_entry(cells@, x - 1));
                row[x - 1]
            } else {
                0
            };
            let diag: isize = if x > 0 && y > 0 {
                self.grid[y - 1][x - 1]
            } else {
                0
            };
            assert(self.row_entry(cells@, -1) == 0);
            assert(left == self.row_entry(cells@, x - 1));
            assert(up == self.entry(x as int, y - 1));
            assert(diag == self.entry(x - 1, y - 1));
            assert(self.row_entry(cells@, x as int) == cells[x as int] + up + left - diag);
            let sum = match cells[x].checked_add(up) {
                Some(s) => match s.checked_add(left) {
                    Some(s) => match s.checked_sub(diag) {
                        Some(s) => s,
                        None => {
                            assert(!self.row_fits(cells@, x as int));
                            return None;
                        },
                    },
                    None => {
                        assert(!self.row_fits(cells@, x as int));
                        return None;
                    },
                },
                None => {
                    assert(!self.row_fits(cells@, x as int));
                    return None;
                },
            };
            assert(self.row_fits(cells@, x as int));
            row.push(sum);
            x += 1;
        }
        Some(row)
    }

    /// The table of sums for a grid of cells. `None` where the grid has no
    /// row, a row is shorter than the first, or a sum on the way to an entry
    /// does not fit in an `isize`.
    pub fn new(grid: Vec<Vec<isize>>) -> (r: Option<SumGrid>)
        ensures
            match r {
                Some(sg) => {
                    &&& summable(grid@)
                    &&& sg.wf()
                    &&& sg.height() == grid.len()
                    &&& sg.width() == grid[0].len()
                    &&& sg.sums(grid@, sg.height())
                },
                None => !summable(grid@),
            },
    {
        if grid.len() == 0 {
            return None;
        }
        let w: usize = grid[0].len();
        let h: usize = grid.len();
        let mut table = SumGrid { grid: Vec::new() };
        let mut y: usize = 0;
        while y < h
            invariant
                y <= h,
                h == grid.len(),
                w == grid[0].len(),
                table.grid.len() == y,
                table.wf(),
                y > 0 ==> table.width() == w,
                table.sums(grid@, y as nat),
                forall|j: int| 0 <= j < y ==> w <= (#[trigger] grid@[j]).len(),
                forall|j: int, i: int| 0 <= j < y && 0 <= i < w ==> #[trigger] sum_fits(grid@, i, j),
            decreases h - y,
        {
            if grid[y].len() < w {
                assert(grid@[y as int].len() < grid@[0].len());
                return None;
            }
            let ghost above = table;
            let row = match table.next_row(&grid[y], w) {
                Some(row) => row,
                None => {
                    proof {
                        let i = choose|i: int|
                            0 <= i < w && !#[trigger] table.row_fits(grid@[y as int]@, i);
                        table.row_entry_is_total(grid@, i);
                        table.row_entry_is_total(grid@, i - 1);
                        table.entry_is_total(grid@, i);
                        assert(!sum_fits(grid@, i, y as int));
                    }
                    return None;
                },
            };
            table.grid.push(row);
            proof {
                assert(table.grid@ == above.grid@.push(row));
                assert(table.grid[0].len() == w);
                assert forall|j: int, i: int| 0 <= j < y + 1 && 0 <= i < w implies #[trigger] table.entry(
                    i,
                    j,
                ) == total_to(grid@, i, j) by {
                    if j < y {
                        assert(table.grid[j] == above.grid[j]);
                        assert(above.entry(i, j) == total_to(grid@, i, j));
                    } else {
                        assert(table.grid[j] == row);
                        above.row_entry_is_total(grid@, i);
                    }
                }
                assert forall|j: int, i: int| 0 <= j < y + 1 && 0 <= i < w implies #[trigger] sum_fits(
                    grid@,
                    i,
                    j,
                ) by {
                    if j == y {
                        assert(above.row_fits(grid@[y as int]@, i));
                        above.row_entry_is_total(grid@, i);
                        above.row_entry_is_total(grid@, i - 1);
                        above.entry_is_total(grid@, i);
                    }
                }
            }
            y += 1;
        }
        Some(table)
    }

    /// The entry above entry `i` of the row that follows the table is the
    /// sum of the cells up to there.
    pub proof fn entry_is_total(&self, cells: Seq<Vec<isize>>, i: int)
        requires
            self.sums(cells, self.height()),
            self.wf(),
            self.height() > 0 ==> 0 <= i < self.width(),
        ensures
            self.entry(i, self.height() - 1) == total_to(cells, i, self.height() - 1),
    {
        if self.height() > 0 {
            assert(self.entry(i, self.height() - 1) == total_to(cells, i, self.height() - 1));
        } else {
            assert(total_to(cells, i, -1) == 0);
        }
    }

    /// The entries of the first `rows` rows of the table are the sums of the
    /// cells `cells`.
    pub open spec fn sums(&self, cells: Seq<Vec<isize>>, rows: nat) -> bool {
        forall|y: int, x: int|
            0 <= y < rows && 0 <= x < self.width() ==> #[trigger] self.entry(x, y) == total_to(
                cells,
                x,
                y,
            )
    }

    /// The entries of the row that follows the table are the sums of the
    /// cells up to there.
    pub proof fn row_entry_is_total(&self, cells: Seq<Vec<isize>>, i: int)
        requires
            self.wf(),
            self.sums(cells, self.height()),
            self.height() < cells.len(),
            self.height() > 0 ==> i < self.width(),
            i >= -1,
        ensures
            self.row_entry(cells[self.height() as int]@, i) == total_to(cells, i, self.height() as int),
        decreases i + 1,
    {
        let h = self.height() as int;
        if i >= 0 {
            self.row_entry_is_total(cells, i - 1);
            assert(total_to(cells, -1, h - 1) == 0);
            assert(total_to(cells, i, -1) == 0);
            assert(total_to(cells, i - 1, -1) == 0);
            if h > 0 {
                assert(self.entry(i, h - 1) == total_to(cells, i, h - 1));
                if i > 0 {
                    assert(self.entry(i - 1, h - 1) == total_to(cells, i - 1, h - 1));
                }
            }
            assert(self.entry(i, h - 1) == total_to(cells, i, h - 1));
            assert(self.entry(i - 1, h - 1) == total_to(cells, i - 1, h - 1));
        } else {
            assert(total_to(cells, -1, h) == 0);
        }
    }

    /// The sum of a rectangle can be computed from its four entries in an
    /// `isize`: the far entry and the near one, less the one above, less the
    /// one to the left.
    pub open spec fn value_fits(&self, x: int, y: int, w: int, h: int) -> bool {
        let d = self.entry(x + w - 1, y + h - 1);
        let a = self.entry(x - 1, y - 1);
        let b = self.entry(x + w - 1, y - 1);
        let c = self.entry(x - 1, y + h - 1);
        fits(d + a) && fits(d + a - b) && fits(d + a - b - c)
    }

    /// The sum of the cells in the rectangle that starts at column `x`, row
    /// `y` and is `w` wide and `h` high. `None` where it cannot be computed
    /// from the four entries in an `isize`.
    pub fn value(&self, x: usize, y: usize, w: usize, h: usize) -> (r: Option<isize>)
        requires
            self.wf(),
            w >= 1,
            h >= 1,
            x + w <= self.width(),
            y + h <= self.height(),
        ensures
            match r {
                Some(v) => self.value_fits(x as int, y as int, w as int, h as int) && v
                    == self.rect_sum(x as int, x + w, y as int, y + h),
                None => !self.value_fits(x as int, y as int, w as int, h as int),
            },
    {
        proof {
            self.rect_sum_telescopes(x as int, x + w, y as int, y + h);
        }
        assert(self.grid[y + h - 1].len() == self.width());
        let a: isize = if x > 0 && y > 0 {
            assert(self.grid[y - 1].len() == self.width());
            self.grid[y - 1][x - 1]
        } else {
            0
        };
        let b: isize = if y > 0 {
            assert(self.grid[y - 1].len() == self.width());
            self.grid[y - 1][x + w - 1]
        } else {
            0
        };
        let c: isize = if x > 0 {
            self.grid[y + h - 1][x - 1]
        } else {
            0
        };
        let d: isize = self.grid[y + h - 1][x + w - 1];
        match d.checked_add(a) {
            Some(s) => match s.checked_sub(b) {
                Some(s) => s.checked_sub(c),
                None => None,
            },
            None => None,
        }
    }
}

/// The sum of the cells from the first column and row up to column `x`, row
/// `y`: the cell there and the sums to its left and above, less the sum
/// above to the left, which both hold.
pub open spec fn total_to(cells: Seq<Vec<isize>>, x: int, y: int) -> int
    decreases
            (if x >= 0 && y >= 0 {
                x + y + 1
            } else {
                0
            }),
{
    if x < 0 || y < 0 {
        0
    } else {
        cells[y][x] + total_to(cells, x - 1, y) + total_to(cells, x, y - 1) - total_to(
            cells,
            x - 1,
            y - 1,
        )
    }
}

/// The sum of the cells up to column `x`, row `y` can be computed in an
/// `isize`: the cell and the sum above, those and the sum to the left, and
/// the sum itself all fit.
pub open spec fn sum_fits(cells: Seq<Vec<isize>>, x: int, y: int) -> bool {
    &&& fits(cells[y][x] + total_to(cells, x, y - 1))
    &&& fits(cells[y][x] + total_to(cells, x, y - 1) + total_to(cells, x - 1, y))
    &&& fits(total_to(cells, x, y))
}

/// The grid has a first row, no row is shorter than it, and every sum of
/// cells from the first column and row on can be computed in an `isize`.
pub open spec fn summable(cells: Seq<Vec<isize>>) -> bool {
    &&& cells.len() > 0
    &&& forall|y: int| 0 <= y < cells.len() ==> cells[0].len() <= (#[trigger] cells[y]).len()
    &&& forall|y: int, x: int|
        0 <= y < cells.len() && 0 <= x < cells[0].len() ==> #[trigger] sum_fits(cells, x, y)
}

/// The power of the cell in column `x`, row `y`, both counted from zero, for
/// the grid with the given serial number.
pub open spec fn level(x: int, y: int, serial: int) -> int {
    ((((x + 11) * (y + 1) + serial) * (x + 11)) / 100) % 10 - 5
}

/// The power of the cell in column `x`, row `y`, both counted from zero.
pub fn power(x: usize, y: usize, serial: usize) -> (r: isize)
    requires
        ((x + 11) * (y + 1) + serial) * (x + 11) <= usize::MAX,
    ensures
        r == level(x as int, y as int, serial as int),
        -5 <= r <= 4,
{
    assert(x + 11 <= (x + 11) * (y + 1) && y + 1 <= (x + 11) * (y + 1)) by (nonlinear_arith);
    assert((x + 11) * (y + 1) <= ((x + 11) * (y + 1) + serial) * (x + 11)) by (nonlinear_arith);
    assert((x + 11) * (y + 1) + serial <= ((x + 11) * (y + 1) + serial) * (x + 11))
        by (nonlinear_arith);
    let rack_id: usize = (x + 1) + 10;
    let mut level: usize = rack_id * (y + 1);
    level += serial;
    level *= rack_id;
    ((level / 100) % 10) as isize - 5
}

/// The pairs of a column below `w` and a row below `h`, row by row.
pub open spec fn pairs(w: nat, h: nat) -> Seq<(usize, usize)>
    decreases h,
{
    if h == 0 {
        seq![]
    } else {
        pairs(w, (h - 1) as nat) + Seq::new(w, |x: int| (x as usize, (h - 1) as usize))
    }
}

/// The pairs of a column below `w` and a row below `h`, row by row.
pub fn rect(w: usize, h: usize) -> (r: Vec<(usize, usize)>)
    ensures
        r@ == pairs(w as nat, h as nat),
{
    let mut out: Vec<(usize, usize)> = Vec::new();
    let mut y: usize = 0;
    while y < h
        invariant
            y <= h,
            out@ == pairs(w as nat, y as nat),
        decreases h - y,
    {
        let ghost done = out@;
        let mut x: usize = 0;
        while x < w
            invariant
                x <= w,
                y < h,
                out@ == done + Seq::new(x as nat, |i: int| (i as usize, y)),
            decreases w - x,
        {
            out.push((x, y));
            assert(out@ =~= done + Seq::new((x + 1) as nat, |i: int| (i as usize, y)));
            x += 1;
        }
        y += 1;
    }
    out
}

/// The best square found so far: its first column and row, and its power.
pub struct Pick {
    pub x: usize,
    pub y: usize,
    pub power: isize,
}

/// The power of the square of `window` cells a side that starts at column
/// `x`, row `y`.
pub open spec fn square_power(sg: SumGrid, x: int, y: int, window: int) -> int {
    sg.rect_sum(x, x + window, y, y + window)
}

/// The square of the most power among those that start in a row before `y`,
/// or in row `y` and a column before `x`, where squares start in the first
/// `side` columns; of several, the last going through the rows from the top,
/// each from the left.
pub open spec fn best_upto(sg: SumGrid, window: int, side: nat, y: nat, x: nat) -> Option<Pick>
    decreases y, x,
{
    if x == 0 {
        if y == 0 {
            None
        } else {
            best_upto(sg, window, side, (y - 1) as nat, side)
        }
    } else {
        let before = best_upto(sg, window, side, y, (x - 1) as nat);
        let here = square_power(sg, x - 1, y as int, window);
        if before is None || here >= before.unwrap().power {
            Some(Pick { x: (x - 1) as usize, y: y as usize, power: here as isize })
        } else {
            before
        }
    }
}

/// The square of the most power among all squares of `window` cells a side
/// within the first `grid_size` columns and rows.
pub open spec fn best_square(sg: SumGrid, grid_size: int, window: int) -> Option<Pick> {
    best_upto(sg, window, (grid_size - window + 1) as nat, (grid_size - window + 1) as nat, 0)
}

/// The power of every square of `window` cells a side within the first
/// `grid_size` columns and rows can be computed.
pub open spec fn all_fit(sg: SumGrid, grid_size: int, window: int) -> bool {
    forall|x: int, y: int|
        0 <= x <= grid_size - window && 0 <= y <= grid_size - window ==> #[trigger] sg.value_fits(
            x,
            y,
            window,
            window,
        )
}

/// The square of the most power among all squares of `window_size` cells a
/// side within the first `grid_size` columns and rows: its first column and
/// row, and its power. `None` where the power of one of the squares cannot
/// be computed.
pub fn find_power_rect(sg: &SumGrid, grid_size: usize, window_size: usize) -> (r: Option<
    ((usize, usize), isize),
>)
    requires
        sg.wf(),
        1 <= window_size <= grid_size,
        grid_size <= sg.width(),
        grid_size <= sg.height(),
    ensures
        match r {
            Some(b) => {
                &&& all_fit(*sg, grid_size as int, window_size as int)
                &&& best_square(*sg, grid_size as int, window_size as int) == Some(
                    Pick { x: b.0.0, y: b.0.1, power: b.1 },
                )
                &&& b.0.0 + window_size <= grid_size
                &&& b.0.1 + window_size <= grid_size
            },
            None => !all_fit(*sg, grid_size as int, window_size as int),
        },
{
    let side: usize = grid_size - (window_size - 1);
    let first = match sg.value(0, 0, window_size, window_size) {
        Some(v) => v,
        None => {
            return None;
        },
    };
    let mut best = Pick { x: 0, y: 0, power: first };
    assert(best_upto(*sg, window_size as int, side as nat, 0, 0) is None);
    assert(best_upto(*sg, window_size as int, side as nat, 0, 1) == Some(best));
    let mut y: usize = 0;
    while y < side
        invariant
            y <= side,
            side == grid_size - window_size + 1,
            sg.wf(),
            1 <= window_size <= grid_size,
            grid_size <= sg.width(),
            grid_size <= sg.height(),
            best.x < side,
            best.y < side,
            sg.value_fits(0, 0, window_size as int, window_size as int),
            forall|cx: int, cy: int|
                0 <= cx < side && 0 <= cy < y ==> #[trigger] sg.value_fits(
                    cx,
                    cy,
                    window_size as int,
                    window_size as int,
                ),
            y == 0 ==> best_upto(*sg, window_size as int, side as nat, 0, 1) == Some(best),
            y > 0 ==> best_upto(*sg, window_size as int, side as nat, y as nat, 0) == Some(best),
        decreases side - y,
    {
        let mut x: usize = if y == 0 {
            1
        } else {
            0
        };
        while x < side
            invariant
                x <= side,
                y < side,
                y == 0 ==> x >= 1,
                side == grid_size - window_size + 1,
                sg.wf(),
                1 <= window_size <= grid_size,
                grid_size <= sg.width(),
                grid_size <= sg.height(),
                best.x < side,
                best.y < side,
                sg.value_fits(0, 0, window_size as int, window_size as int),
                forall|cx: int, cy: int|
                    0 <= cx < side && 0 <= cy < y ==> #[trigger] sg.value_fits(
                        cx,
                        cy,
                        window_size as int,
                        window_size as int,
                    ),
                forall|cx: int|
                    0 <= cx < x ==> #[trigger] sg.value_fits(
                        cx,
                        y as int,
                        window_size as int,
                        window_size as int,
                    ),
                best_upto(*sg, window_size as int, side as nat, y as nat, x as nat) == Some(best),
            decreases side - x,
        {
            let here = match sg.value(x, y, window_size, window_size) {
                Some(v) => v,
                None => {
                    return None;
                },
            };
            if here >= best.power {
                best = Pick { x, y, power: here };
            }
            x += 1;
        }
        y += 1;
    }
    Some(((best.x, best.y), best.power))
}

/// The cells up to column `x` and row `y` are there, and each lies between
/// five below and five above zero.
pub open spec fn small(cells: Seq<Vec<isize>>, x: int, y: int) -> bool {
    &&& forall|j: int| 0 <= j <= y ==> x < (#[trigger] cells[j]).len()
    &&& forall|j: int, i: int| 0 <= j <= y && 0 <= i <= x ==> -5 <= #[trigger] cells[j][i] <= 5
}

/// Each column's sum of small cells is small.
pub proof fn small_columns(cells: Seq<Vec<isize>>, x: int, y: int)
    requires
        0 <= x,
        -1 <= y < cells.len(),
        small(cells, x, y),
    ensures
        -5 * (y + 1) <= total_to(cells, x, y) - total_to(cells, x - 1, y) <= 5 * (y + 1),
    decreases y + 1,
{
    if y >= 0 {
        assert(small(cells, x, y - 1));
        small_columns(cells, x, y - 1);
        assert(x < cells[y].len());
        assert(-5 <= cells[y][x] <= 5);
    } else {
        assert(total_to(cells, x, y) == 0);
        assert(total_to(cells, x - 1, y) == 0);
    }
}

/// A sum of small cells is small.
pub proof fn small_totals(cells: Seq<Vec<isize>>, x: int, y: int)
    requires
        -1 <= x,
        0 <= y < cells.len(),
        small(cells, x, y),
    ensures
        -5 * (x + 1) * (y + 1) <= total_to(cells, x, y) <= 5 * (x + 1) * (y + 1),
    decreases x + 1,
{
    if x >= 0 {
        assert(small(cells, x - 1, y)) by {
            assert forall|j: int| 0 <= j <= y implies x - 1 < (#[trigger] cells[j]).len() by {
                assert(x < cells[j].len());
            }
        }
        small_totals(cells, x - 1, y);
        small_columns(cells, x, y);
        assert(5 * x * (y + 1) + 5 * (y + 1) == 5 * (x + 1) * (y + 1)) by (nonlinear_arith);
        assert(-5 * x * (y + 1) - 5 * (y + 1) == -5 * (x + 1) * (y + 1)) by (nonlinear_arith);
        assert(5 * (x - 1 + 1) * (y + 1) == 5 * x * (y + 1)) by (nonlinear_arith);
        assert(-5 * (x - 1 + 1) * (y + 1) == -5 * x * (y + 1)) by (nonlinear_arith);
    } else {
        assert(total_to(cells, x, y) == 0);
        assert(5 * (x + 1) * (y + 1) == 0 && -5 * (x + 1) * (y + 1) == 0) by (nonlinear_arith)
            requires
                x == -1,
        ;
    }
}

/// The table holds the power levels of a grid of three hundred cells a
/// side, for the given serial number.
pub open spec fn holds_levels(sg: SumGrid, serial: int) -> bool {
    &&& sg.wf()
    &&& sg.width() == 300
    &&& sg.height() == 300
    &&& forall|y: int, x: int|
        0 <= y < 300 && 0 <= x < 300 ==> #[trigger] sg.cell(x, y) == level(x, y, serial)
}

/// The serial number that the input, trimmed, writes, where the power of
/// every cell can be computed in a `usize`.
pub open spec fn serial_of(input: Seq<char>) -> Option<usize> {
    match as_usize(trim(input)) {
        Some(serial) => if (310 * 300 + serial) * 310 <= usize::MAX {
            Some(serial)
        } else {
            None
        },
        None => None,
    }
}

/// The power levels of a grid of three hundred cells a side.
pub fn level_grid(serial: usize) -> (grid: Vec<Vec<isize>>)
    requires
        (310 * 300 + serial) * 310 <= usize::MAX,
    ensures
        grid.len() == 300,
        forall|y: int| 0 <= y < 300 ==> (#[trigger] grid[y]).len() == 300,
        forall|y: int, x: int|
            0 <= y < 300 && 0 <= x < 300 ==> #[trigger] grid[y][x] == level(x, y, serial as int),
{
    let mut grid: Vec<Vec<isize>> = Vec::new();
    let mut y: usize = 0;
    while y < 300
        invariant
            y <= 300,
            (310 * 300 + serial) * 310 <= usize::MAX,
            grid.len() == y,
            forall|j: int| 0 <= j < y ==> (#[trigger] grid[j]).len() == 300,
            forall|j: int, i: int|
                0 <= j < y && 0 <= i < 300 ==> #[trigger] grid[j][i] == level(i, j, serial as int),
        decreases 300 - y,
    {
        let mut row: Vec<isize> = Vec::new();
        let mut x: usize = 0;
        while x < 300
            invariant
                x <= 300,
                y < 300,
                (310 * 300 + serial) * 310 <= usize::MAX,
                row.len() == x,
                forall|i: int| 0 <= i < x ==> #[trigger] row[i] == level(i, y as int, serial as int),
            decreases 300 - x,
        {
            assert(((x + 11) * (y + 1) + serial) * (x + 11) <= (310 * 300 + serial) * 310)
                by (nonlinear_arith)
                requires
                    x < 300,
                    y < 300,
                    serial >= 0,
            ;
            row.push(power(x, y, serial));
            x += 1;
        }
        grid.push(row);
        y += 1;
    }
    grid
}

/// The first column and row, counted from one, of the square of three cells
/// a side with the most power, with a comma between them, together with the
/// table of sums of the power levels. `None` where the input names no serial
/// number, or one too great for the power to be computed.
pub fn part1(input: &str) -> (r: Option<(String, SumGrid)>)
    ensures
        match serial_of(input@) {
            Some(serial) => r is Some && holds_levels(r.unwrap().1, serial as int) && best_square(
                r.unwrap().1,
                300,
                3,
            ) is Some && r.unwrap().0@ == crate::text::pair_text(
                (best_square(r.unwrap().1, 300, 3).unwrap().x + 1) as nat,
                (best_square(r.unwrap().1, 300, 3).unwrap().y + 1) as nat,
            ),
            None => r is None,
        },
{
    let chars = chars_of(input);
    let serial = match read_usize(&trimmed(&chars)) {
        Some(s) => s,
        None => {
            return None;
        },
    };
    if serial > usize::MAX / 310 - 93000 {
        assert((310 * 300 + serial) * 310 > usize::MAX);
        return None;
    }
    let grid = level_grid(serial);
    proof {
        level_totals_small(grid@, serial as int);
        assert forall|y: int, x: int|
            0 <= y < grid@.len() && 0 <= x < grid@[0].len() implies #[trigger] sum_fits(
            grid@,
            x,
            y,
        ) by {
            assert(grid[y][x] == level(x, y, serial as int));
            assert(-450000 <= total_to(grid@, x, y) <= 450000);
            assert(total_to(grid@, x, -1) == 0);
            assert(total_to(grid@, -1, y) == 0);
            if y > 0 {
                assert(-450000 <= total_to(grid@, x, y - 1) <= 450000);
            }
            if x > 0 {
                assert(-450000 <= total_to(grid@, x - 1, y) <= 450000);
            }
        }
        assert(summable(grid@));
    }
    let sg = match SumGrid::new(grid) {
        Some(sg) => sg,
        None => {
            return None;
        },
    };
    proof {
        assert forall|y: int, x: int| 0 <= y < 300 && 0 <= x < 300 implies #[trigger] sg.cell(x, y)
            == level(x, y, serial as int) by {
            assert(sg.entry(x, y) == total_to(grid@, x, y));
            assert(total_to(grid@, -1, y) == 0);
            assert(total_to(grid@, x, -1) == 0);
            assert(total_to(grid@, -1, y - 1) == 0);
            assert(total_to(grid@, x - 1, -1) == 0);
            if x > 0 {
                assert(sg.entry(x - 1, y) == total_to(grid@, x - 1, y));
            }
            if y > 0 {
                assert(sg.entry(x, y - 1) == total_to(grid@, x, y - 1));
            }
            if x > 0 && y > 0 {
                assert(sg.entry(x - 1, y - 1) == total_to(grid@, x - 1, y - 1));
            }
            assert(grid[y][x] == level(x, y, serial as int));
        }
    }
    proof {
        assert forall|x: int, y: int| 0 <= x <= 300 - 3 && 0 <= y <= 300 - 3 implies #[trigger] sg.value_fits(
            x,
            y,
            3,
            3,
        ) by {
            small_entry(sg, grid@, x + 2, y + 2);
            small_entry(sg, grid@, x - 1, y - 1);
            small_entry(sg, grid@, x + 2, y - 1);
            small_entry(sg, grid@, x - 1, y + 2);
        }
    }
    match find_power_rect(&sg, 300, 3) {
        Some(((x, y), _)) => Some((crate::text::pair_string(x + 1, y + 1), sg)),
        None => None,
    }
}

/// The sums of the power levels of a grid of three hundred cells a side are
/// small.
pub proof fn level_totals_small(cells: Seq<Vec<isize>>, serial: int)
    requires
        cells.len() == 300,
        forall|y: int| 0 <= y < 300 ==> (#[trigger] cells[y]).len() == 300,
        forall|y: int, x: int|
            0 <= y < 300 && 0 <= x < 300 ==> #[trigger] cells[y][x] == level(x, y, serial),
    ensures
        forall|y: int, x: int|
            0 <= y < 300 && 0 <= x < 300 ==> -450000 <= #[trigger] total_to(cells, x, y) <= 450000,
{
    assert forall|y: int, x: int| 0 <= y < 300 && 0 <= x < 300 implies -450000 <= #[trigger] total_to(
        cells,
        x,
        y,
    ) <= 450000 by {
        assert forall|j: int, i: int| 0 <= j <= y && 0 <= i <= x implies -5 <= #[trigger] cells[j][i]
            <= 5 by {
            assert(cells[j][i] == level(i, j, serial));
        }
        assert forall|j: int| 0 <= j <= y implies x < (#[trigger] cells[j]).len() by {
            assert(cells[j].len() == 300);
        }
        small_totals(cells, x, y);
        assert(5 * (x + 1) * (y + 1) <= 450000 && -5 * (x + 1) * (y + 1) >= -450000)
            by (nonlinear_arith)
            requires
                0 <= x < 300,
                0 <= y < 300,
        ;
    }
}

/// An entry of the table of sums of a grid of power levels is small.
pub proof fn small_entry(sg: SumGrid, cells: Seq<Vec<isize>>, x: int, y: int)
    requires
        sg.width() == 300,
        sg.height() == 300,
        sg.sums(cells, 300),
        forall|j: int, i: int|
            0 <= j < 300 && 0 <= i < 300 ==> -450000 <= #[trigger] total_to(cells, i, j) <= 450000,
        x < 300,
        y < 300,
    ensures
        -450000 <= sg.entry(x, y) <= 450000,
{
    if 0 <= x && 0 <= y {
        assert(sg.entry(x, y) == total_to(cells, x, y));
    }
}

/// The size of the best square and the square itself, among the sizes from
/// one to `n`; of several with the most power, that of the greatest size.
pub open spec fn best_of_sizes(sg: SumGrid, n: nat) -> (nat, Pick)
    decreases n,
{
    let here = best_square(sg, 300, n as int).unwrap();
    if n <= 1 {
        (1, best_square(sg, 300, 1).unwrap())
    } else {
        let before = best_of_sizes(sg, (n - 1) as nat);
        if here.power >= before.1.power {
            (n, here)
        } else {
            before
        }
    }
}

/// Three numbers in decimal with commas between them.
pub open spec fn triple_text(x: nat, y: nat, size: nat) -> Seq<char> {
    decimal(x) + seq![','] + decimal(y) + seq![','] + decimal(size)
}

/// The power of every square of every size from one to `n` within the first
/// three hundred columns and rows can be computed.
pub open spec fn sizes_fit(sg: SumGrid, n: nat) -> bool {
    forall|size: int| 1 <= size <= n ==> #[trigger] all_fit(sg, 300, size)
}

/// What part two answers for a table.
pub open spec fn largest_answer(sg: SumGrid) -> Option<Seq<char>> {
    if sizes_fit(sg, 300) {
        Some(
            triple_text(
                (best_of_sizes(sg, 300).1.x + 1) as nat,
                (best_of_sizes(sg, 300).1.y + 1) as nat,
                best_of_sizes(sg, 300).0,
            ),
        )
    } else {
        None
    }
}

/// The first column and row, counted from one, and the size of the square
/// with the most power among the squares of all sizes within the first three
/// hundred columns and rows, with commas between them. `None` where the
/// power of a square cannot be computed in an `isize`.
pub fn part2(_input: &str, grid: SumGrid) -> (r: Option<String>)
    requires
        grid.wf(),
        grid.width() >= 300,
        grid.height() >= 300,
    ensures
        opt_view(r) == largest_answer(grid),
{
    let ((first_x, first_y), first_power) = match find_power_rect(&grid, 300, 1) {
        Some(b) => b,
        None => {
            return None;
        },
    };
    let mut best = Pick { x: first_x, y: first_y, power: first_power };
    let mut best_size: usize = 1;
    let mut size: usize = 2;
    while size <= 300
        invariant
            2 <= size <= 301,
            grid.wf(),
            grid.width() >= 300,
            grid.height() >= 300,
            sizes_fit(grid, (size - 1) as nat),
            best_of_sizes(grid, (size - 1) as nat) == (best_size as nat, best),
            best.x < 300,
            best.y < 300,
        decreases 301 - size,
    {
        let ((x, y), p) = match find_power_rect(&grid, 300, size) {
            Some(b) => b,
            None => {
                return None;
            },
        };
        if p >= best.power {
            best = Pick { x, y, power: p };
            best_size = size;
        }
        size += 1;
    }
    let mut out: Vec<char> = Vec::new();
    push_decimal(&mut out, best.x + 1);
    out.push(',');
    push_decimal(&mut out, best.y + 1);
    out.push(',');
    push_decimal(&mut out, best_size);
    assert(out@ =~= triple_text((best.x + 1) as nat, (best.y + 1) as nat, best_size as nat));
    Some(string_of(&out))
}

} // verus!
