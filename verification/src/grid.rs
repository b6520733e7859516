//! A dense grid of cells that is advanced by a nine-cell stencil, with two
//! buffers so that no cell sees a value written within the same step.

use vstd::prelude::*;

verus! {

/// A cell of a grid together with the eight cells around it. Rows are
/// numbered downwards: `above` is the row before, `below` the row after.
#[derive(Debug)]
pub struct Neighborhood<T> {
    pub center: T,
    pub above: T,
    pub below: T,
    pub left: T,
    pub right: T,
    pub above_left: T,
    pub above_right: T,
    pub below_left: T,
    pub below_right: T,
}

/// A grid of fixed size. It holds the current cells and a second buffer of
/// the same size, into which a step writes before the two change places.
pub struct Grid<T> {
    width: usize,
    height: usize,
    cells: Vec<Vec<T>>,
    spare: Vec<Vec<T>>,
}

/// `rows` holds `height` rows of `width` cells each.
spec fn shaped<T>(rows: Seq<Vec<T>>, width: usize, height: usize) -> bool {
    &&& rows.len() == height
    &&& forall|y: int| 0 <= y < height ==> (#[trigger] rows[y])@.len() == width
}

impl<T> Grid<T> {
    #[verifier::type_invariant]
    spec fn buffers_are_shaped(self) -> bool {
        &&& shaped(self.cells@, self.width, self.height)
        &&& shaped(self.spare@, self.width, self.height)
    }

    /// The number of columns.
    pub closed spec fn columns(&self) -> nat {
        self.width as nat
    }

    /// The number of rows.
    pub closed spec fn rows(&self) -> nat {
        self.height as nat
    }

    /// The current cell in column `x` of row `y`.
    pub closed spec fn at(&self, x: int, y: int) -> T {
        self.cells@[y]@[x]
    }

    /// Column `x` of row `y` is on the grid.
    pub open spec fn contains(&self, x: int, y: int) -> bool {
        0 <= x < self.columns() && 0 <= y < self.rows()
    }

    /// Column `x` of row `y` is on the grid and not on its border, so that
    /// all its eight neighbours are on the grid too.
    pub open spec fn is_inner(&self, x: int, y: int) -> bool {
        0 < x < self.columns() - 1 && 0 < y < self.rows() - 1
    }

    /// The cell in column `x` of row `y` with the eight cells around it.
    pub open spec fn neighborhood(&self, x: int, y: int) -> Neighborhood<T> {
        Neighborhood {
            center: self.at(x, y),
            above: self.at(x, y - 1),
            below: self.at(x, y + 1),
            left: self.at(x - 1, y),
            right: self.at(x + 1, y),
            above_left: self.at(x - 1, y - 1),
            above_right: self.at(x + 1, y - 1),
            below_left: self.at(x - 1, y + 1),
            below_right: self.at(x + 1, y + 1),
        }
    }

    /// The number of columns.
    pub fn width(&self) -> (w: usize)
        ensures
            w == self.columns(),
    {
        self.width
    }

    /// The number of rows.
    pub fn height(&self) -> (h: usize)
        ensures
            h == self.rows(),
    {
        self.height
    }
}

/// `height` rows of `width` cells, each of them `fill`.
fn filled<T: Copy>(width: usize, height: usize, fill: T) -> (rows: Vec<Vec<T>>)
    ensures
        shaped(rows@, width, height),
        forall|x: int, y: int| 0 <= x < width && 0 <= y < height ==> #[trigger] rows@[y]@[x] == fill,
{
    let mut rows: Vec<Vec<T>> = Vec::new();
    let mut y: usize = 0;
    while y < height
        invariant
            y <= height,
            rows@.len() == y,
            forall|j: int| 0 <= j < y ==> (#[trigger] rows@[j])@.len() == width,
            forall|i: int, j: int| 0 <= i < width && 0 <= j < y ==> #[trigger] rows@[j]@[i] == fill,
        decreases height - y,
    {
        let mut row: Vec<T> = Vec::new();
        let mut x: usize = 0;
        while x < width
            invariant
                x <= width,
                row@.len() == x,
                forall|i: int| 0 <= i < x ==> #[trigger] row@[i] == fill,
            decreases width - x,
        {
            row.push(fill);
            x += 1;
        }
        rows.push(row);
        y += 1;
    }
    rows
}

/// Writes `value` into column `x` of row `y`.
fn put<T>(rows: &mut Vec<Vec<T>>, x: usize, y: usize, value: T)
    requires
        y < old(rows)@.len(),
        x < old(rows)@[y as int]@.len(),
    ensures
        final(rows)@.len() == old(rows)@.len(),
        forall|j: int|
            0 <= j < old(rows)@.len() ==> (#[trigger] final(rows)@[j])@ == if j == y {
                old(rows)@[j]@.update(x as int, value)
            } else {
                old(rows)@[j]@
            },
    no_unwind
{
    rows[y][x] = value;
}

impl<T: Copy> Grid<T> {
    /// A grid of `width` columns and `height` rows with `fill` in every cell.
    pub fn new(width: usize, height: usize, fill: T) -> (grid: Grid<T>)
        ensures
            grid.columns() == width,
            grid.rows() == height,
            forall|x: int, y: int| grid.contains(x, y) ==> #[trigger] grid.at(x, y) == fill,
    {
        Grid { width, height, cells: filled(width, height, fill), spare: filled(width, height, fill) }
    }

    /// A grid of `width` columns and `height` rows with `seed` in the block
    /// around its centre and `fill` in every other cell. The centre is
    /// column `width / 2` of row `height / 2`; the block is made of the
    /// columns from `reach` before the centre up to but not including
    /// `reach` after it, and of the rows likewise. The grid has to be large
    /// enough to hold the block.
    pub fn seeded(width: usize, height: usize, fill: T, seed: T, reach: usize) -> (grid: Grid<T>)
        requires
            reach <= width / 2,
            reach <= height / 2,
        ensures
            grid.columns() == width,
            grid.rows() == height,
            forall|x: int, y: int|
                grid.contains(x, y) ==> #[trigger] grid.at(x, y) == if width / 2 - reach <= x
                    < width / 2 + reach && height / 2 - reach <= y < height / 2 + reach {
                    seed
                } else {
                    fill
                },
    {
        let mut grid = Grid::new(width, height, fill);
        let center_x = width / 2;
        let center_y = height / 2;
        grid.fill_rect(center_x - reach, center_y - reach, center_x + reach, center_y + reach, seed);
        grid
    }

    /// The cell in column `x` of row `y`, or `None` off the grid.
    pub fn get(&self, x: usize, y: usize) -> (cell: Option<T>)
        ensures
            cell == if self.contains(x as int, y as int) {
                Some(self.at(x as int, y as int))
            } else {
                None
            },
    {
        proof {
            use_type_invariant(self);
        }
        if x < self.width && y < self.height {
            Some(self.cells[y][x])
        } else {
            None
        }
    }

    /// Sets to `value` every cell of the grid in columns `x0` up to but not
    /// including `x1` and rows `y0` up to but not including `y1`. The part of
    /// that block which lies off the grid is left out.
    pub fn fill_rect(&mut self, x0: usize, y0: usize, x1: usize, y1: usize, value: T)
        ensures
            final(self).columns() == old(self).columns(),
            final(self).rows() == old(self).rows(),
            forall|x: int, y: int|
                old(self).contains(x, y) ==> #[trigger] final(self).at(x, y) == if x0 <= x < x1
                    && y0 <= y < y1 {
                    value
                } else {
                    old(self).at(x, y)
                },
    {
        proof {
            use_type_invariant(&*self);
        }
        let x_end = if x1 < self.width {
            x1
        } else {
            self.width
        };
        let y_end = if y1 < self.height {
            y1
        } else {
            self.height
        };
        let mut y: usize = y0;
        while y < y_end
            invariant
                y_end <= self.height,
                x_end <= self.width,
                x_end == if x1 < self.width {
                    x1
                } else {
                    self.width
                },
                y_end == if y1 < self.height {
                    y1
                } else {
                    self.height
                },
                y0 <= y,
                y <= y_end || y == y0,
                self.width == old(self).width,
                self.height == old(self).height,
                shaped(self.cells@, self.width, self.height),
                shaped(self.spare@, self.width, self.height),
                self.spare == old(self).spare,
                forall|i: int, j: int|
                    0 <= i < self.width && 0 <= j < self.height ==> #[trigger] self.cells@[j]@[i]
                        == if x0 <= i < x1 && y0 <= j < y {
                        value
                    } else {
                        old(self).cells@[j]@[i]
                    },
            decreases y_end - y,
        {
            let mut x: usize = x0;
            while x < x_end
                invariant
                    y < y_end <= self.height,
                    x_end <= self.width,
                    x_end == if x1 < self.width {
                        x1
                    } else {
                        self.width
                    },
                    x0 <= x,
                    x <= x_end || x == x0,
                    y0 <= y,
                    self.width == old(self).width,
                    self.height == old(self).height,
                    shaped(self.cells@, self.width, self.height),
                    shaped(self.spare@, self.width, self.height),
                    self.spare == old(self).spare,
                    forall|i: int, j: int|
                        0 <= i < self.width && 0 <= j < self.height
                            ==> #[trigger] self.cells@[j]@[i] == if x0 <= i < x1 && (y0 <= j < y
                            || (j == y && i < x)) {
                            value
                        } else {
                            old(self).cells@[j]@[i]
                        },
                decreases x_end - x,
            {
                put(&mut self.cells, x, y, value);
                x += 1;
            }
            y += 1;
        }
    }

    /// Seeds the grid: where column `x` of row `y` is on the grid, sets to
    /// `value` every cell of the grid at most `half_width` columns and at
    /// most `half_width` rows away from it. Elsewhere nothing changes.
    pub fn seed(&mut self, x: usize, y: usize, half_width: usize, value: T)
        ensures
            final(self).columns() == old(self).columns(),
            final(self).rows() == old(self).rows(),
            forall|i: int, j: int|
                old(self).contains(i, j) ==> #[trigger] final(self).at(i, j) == if old(self).contains(
                    x as int,
                    y as int,
                ) && x - half_width <= i <= x + half_width && y - half_width <= j <= y
                    + half_width {
                    value
                } else {
                    old(self).at(i, j)
                },
    {
        if x < self.width && y < self.height {
            let x0 = x.saturating_sub(half_width);
            let y0 = y.saturating_sub(half_width);
            let x1 = x.saturating_add(half_width).saturating_add(1);
            let y1 = y.saturating_add(half_width).saturating_add(1);
            proof {
                use_type_invariant(&*self);
            }
            self.fill_rect(x0, y0, x1, y1, value);
        }
    }
}

impl<T: Copy> Grid<T> {
    /// The cell in column `x` of row `y` with the eight cells around it.
    fn window(&self, x: usize, y: usize) -> (cells: Neighborhood<T>)
        requires
            self.is_inner(x as int, y as int),
        ensures
            cells == self.neighborhood(x as int, y as int),
    {
        proof {
            use_type_invariant(self);
        }
        Neighborhood {
            center: self.cells[y][x],
            above: self.cells[y - 1][x],
            below: self.cells[y + 1][x],
            left: self.cells[y][x - 1],
            right: self.cells[y][x + 1],
            above_left: self.cells[y - 1][x - 1],
            above_right: self.cells[y - 1][x + 1],
            below_left: self.cells[y + 1][x - 1],
            below_right: self.cells[y + 1][x + 1],
        }
    }

    /// `after` is this grid advanced by one step of `kernel`: it has the
    /// same size, each of its cells off the border is what `kernel` may make
    /// of the nine cells there were, and each cell on the border is as it
    /// was.
    pub open spec fn advances_to<F: Fn(Neighborhood<T>) -> T>(
        &self,
        after: &Grid<T>,
        kernel: F,
    ) -> bool {
        &&& after.columns() == self.columns()
        &&& after.rows() == self.rows()
        &&& forall|x: int, y: int|
            self.is_inner(x, y) ==> call_ensures(
                kernel,
                (self.neighborhood(x, y),),
                #[trigger] after.at(x, y),
            )
        &&& forall|x: int, y: int|
            self.contains(x, y) && !self.is_inner(x, y) ==> #[trigger] after.at(x, y) == self.at(
                x,
                y,
            )
    }

    /// Advances the grid by one step. Every cell that is not on the border
    /// becomes what `kernel` makes of it and the eight cells around it, all
    /// nine read as they were before the step. The cells on the border stay
    /// as they are.
    ///
    /// The new cells are written into the second buffer, which then takes
    /// the place of the first.
    pub fn step<F: Fn(Neighborhood<T>) -> T>(&mut self, kernel: F)
        requires
            forall|x: int, y: int|
                old(self).is_inner(x, y) ==> call_requires(
                    kernel,
                    (#[trigger] old(self).neighborhood(x, y),),
                ),
        ensures
            old(self).advances_to(final(self), kernel),
    {
        proof {
            use_type_invariant(&*self);
        }
        let width = self.width;
        let height = self.height;
        let mut y: usize = 0;
        while y < height
            invariant
                y <= height,
                width == self.width,
                height == self.height,
                self.width == old(self).width,
                self.height == old(self).height,
                self.cells == old(self).cells,
                shaped(self.cells@, self.width, self.height),
                shaped(self.spare@, self.width, self.height),
                forall|i: int, j: int|
                    old(self).is_inner(i, j) ==> call_requires(
                        kernel,
                        (#[trigger] old(self).neighborhood(i, j),),
                    ),
                forall|i: int, j: int|
                    0 <= i < width && 0 <= j < y && old(self).is_inner(i, j) ==> call_ensures(
                        kernel,
                        (old(self).neighborhood(i, j),),
                        #[trigger] self.spare@[j]@[i],
                    ),
                forall|i: int, j: int|
                    0 <= i < width && 0 <= j < y && !old(self).is_inner(i, j)
                        ==> #[trigger] self.spare@[j]@[i] == old(self).cells@[j]@[i],
            decreases height - y,
        {
            let mut x: usize = 0;
            while x < width
                invariant
                    y < height,
                    x <= width,
                    width == self.width,
                    height == self.height,
                    self.width == old(self).width,
                    self.height == old(self).height,
                    self.cells == old(self).cells,
                    shaped(self.cells@, self.width, self.height),
                    shaped(self.spare@, self.width, self.height),
                    forall|i: int, j: int|
                        old(self).is_inner(i, j) ==> call_requires(
                            kernel,
                            (#[trigger] old(self).neighborhood(i, j),),
                        ),
                    forall|i: int, j: int|
                        0 <= i < width && (0 <= j < y || (j == y && i < x)) && old(self).is_inner(
                            i,
                            j,
                        ) ==> call_ensures(
                            kernel,
                            (old(self).neighborhood(i, j),),
                            #[trigger] self.spare@[j]@[i],
                        ),
                    forall|i: int, j: int|
                        0 <= i < width && (0 <= j < y || (j == y && i < x)) && !old(self).is_inner(
                            i,
                            j,
                        ) ==> #[trigger] self.spare@[j]@[i] == old(self).cells@[j]@[i],
                decreases width - x,
            {
                let value = if 0 < x && x < width - 1 && 0 < y && y < height - 1 {
                    assert(self.neighborhood(x as int, y as int) == old(self).neighborhood(
                        x as int,
                        y as int,
                    ));
                    kernel(self.window(x, y))
                } else {
                    self.cells[y][x]
                };
                put(&mut self.spare, x, y, value);
                x += 1;
            }
            y += 1;
        }
        std::mem::swap(&mut self.cells, &mut self.spare);
    }
}

/// The neighbourhood in which all nine cells are `value`.
pub open spec fn uniform<T>(value: T) -> Neighborhood<T> {
    Neighborhood {
        center: value,
        above: value,
        below: value,
        left: value,
        right: value,
        above_left: value,
        above_right: value,
        below_left: value,
        below_right: value,
    }
}

/// A grid that holds one value in every cell is a fixed point of every
/// kernel that makes that value of nine cells holding it.
pub proof fn lemma_uniform_is_fixed<T: Copy, F: Fn(Neighborhood<T>) -> T>(
    before: Grid<T>,
    after: Grid<T>,
    kernel: F,
    value: T,
)
    requires
        before.advances_to(&after, kernel),
        forall|x: int, y: int| before.contains(x, y) ==> #[trigger] before.at(x, y) == value,
        forall|r: T| call_ensures(kernel, (uniform(value),), r) ==> r == value,
    ensures
        forall|x: int, y: int| after.contains(x, y) ==> #[trigger] after.at(x, y) == value,
{
    assert forall|x: int, y: int| after.contains(x, y) implies #[trigger] after.at(x, y)
        == value by {
        if before.is_inner(x, y) {
            assert(before.at(x, y) == value);
            assert(before.at(x - 1, y) == value);
            assert(before.at(x + 1, y) == value);
            assert(before.at(x, y - 1) == value);
            assert(before.at(x, y + 1) == value);
            assert(before.at(x - 1, y - 1) == value);
            assert(before.at(x + 1, y - 1) == value);
            assert(before.at(x - 1, y + 1) == value);
            assert(before.at(x + 1, y + 1) == value);
            assert(before.neighborhood(x, y) == uniform(value));
        } else {
            assert(before.at(x, y) == value);
        }
    }
}

/// What holds of every cell before a step and of everything the kernel
/// returns holds of every cell after the step.
pub proof fn lemma_step_keeps<T: Copy, F: Fn(Neighborhood<T>) -> T>(
    before: Grid<T>,
    after: Grid<T>,
    kernel: F,
    good: spec_fn(T) -> bool,
)
    requires
        before.advances_to(&after, kernel),
        forall|x: int, y: int| before.contains(x, y) ==> good(#[trigger] before.at(x, y)),
        forall|n: Neighborhood<T>, r: T| call_ensures(kernel, (n,), r) ==> good(r),
    ensures
        forall|x: int, y: int| after.contains(x, y) ==> good(#[trigger] after.at(x, y)),
{
    assert forall|x: int, y: int| after.contains(x, y) implies good(#[trigger] after.at(x, y)) by {
        if !before.is_inner(x, y) {
            assert(good(before.at(x, y)));
        }
    }
}

} // verus!
