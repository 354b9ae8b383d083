//! The table of amounts, one row per path and one column per time step,
//! that every stage of a valuation reads or fills.

use vstd::prelude::*;
use ndarray::Array2;
use ndarray::ShapeError;
use crate::error::PricingError;

verus! {

#[verifier::external_type_specification]
#[verifier::external_body]
pub struct ExShapeError(ShapeError);

/// A rectangular table of fixed-point amounts, held in an `ndarray::Array2`.
///
/// Nothing is proved of the array itself: what it holds is known only
/// through `grid_cells` and `grid_width`, as the functions below state it.
#[verifier::external_body]
pub struct Grid {
    cells: Array2<i64>,
}

/// The rows of a grid, first to last, each with its cells in column order.
pub uninterp spec fn grid_cells(g: Grid) -> Seq<Seq<i64>>;

/// The number of columns of a grid, which a grid without rows has too.
pub uninterp spec fn grid_width(g: Grid) -> nat;

/// The number of bytes that one cell takes.
pub const CELL_BYTES: usize = 8;

/// Whether a grid of this shape can be made: the product of its axis
/// lengths, zero lengths left out, must not exceed `isize::MAX`, and neither
/// must the number of bytes that its cells take.
pub open spec fn shape_fits(rows: nat, cols: nat) -> bool {
    &&& (if rows == 0 { 1 } else { rows as int }) * (if cols == 0 { 1 } else { cols as int })
        <= isize::MAX
    &&& rows * cols * CELL_BYTES <= isize::MAX
}

/// `data` cut into `rows` rows of `cols` cells, in row-major order.
pub open spec fn row_major(data: Seq<i64>, rows: nat, cols: nat) -> Seq<Seq<i64>> {
    Seq::new(rows, |i: int| Seq::new(cols, |j: int| data[i * cols + j]))
}

/// A table of `rows` by `cols` zeros.
pub open spec fn zero_cells(rows: nat, cols: nat) -> Seq<Seq<i64>> {
    Seq::new(rows, |i: int| Seq::new(cols, |j: int| 0i64))
}

/// `Array2::zeros` with the shape `(rows, cols)`: an array of that shape whose
/// every cell is zero. It panics where the product of the axis lengths that
/// are not zero exceeds `isize::MAX`, and where the vector that it fills
/// would take more than `isize::MAX` bytes; the precondition leaves both out.
#[verifier::external_body]
fn grid_zeros(rows: usize, cols: usize) -> (g: Grid)
    requires
        shape_fits(rows as nat, cols as nat),
    ensures
        grid_cells(g) == zero_cells(rows as nat, cols as nat),
        grid_width(g) == cols,
{
    Grid { cells: Array2::zeros((rows, cols)) }
}

/// `Array2::from_shape_vec` with the shape `(rows, cols)`, both positive: it
/// succeeds exactly when `data` holds `rows * cols` items, and the array then
/// holds them in row-major order. (It also refuses a shape whose size exceeds
/// `isize::MAX`, which no vector's length reaches.)
#[verifier::external_body]
fn grid_from_shape_vec(rows: usize, cols: usize, data: Vec<i64>) -> (r: Result<Grid, ShapeError>)
    requires
        rows > 0,
        cols > 0,
    ensures
        r.is_ok() <==> rows * cols == data@.len(),
        r matches Ok(g) ==> grid_width(g) == cols && grid_cells(g) == row_major(
            data@,
            rows as nat,
            cols as nat,
        ),
{
    match Array2::from_shape_vec((rows, cols), data) {
        Ok(cells) => Ok(Grid { cells }),
        Err(e) => Err(e),
    }
}

/// `ArrayBase::dim` of a two-dimensional array: the number of rows and the
/// number of columns, which is the length of every row.
#[verifier::external_body]
fn grid_dim(g: &Grid) -> (d: (usize, usize))
    ensures
        d.0 == grid_cells(*g).len(),
        d.1 == grid_width(*g),
        forall|i: int| 0 <= i < d.0 ==> (#[trigger] grid_cells(*g)[i]).len() == d.1,
{
    g.cells.dim()
}

/// Indexing an array by `[[i, j]]`: the cell in row `i` and column `j`. It
/// panics out of bounds, which the precondition leaves out.
#[verifier::external_body]
fn grid_get(g: &Grid, i: usize, j: usize) -> (v: i64)
    requires
        i < grid_cells(*g).len(),
        j < grid_width(*g),
    ensures
        v == grid_cells(*g)[i as int][j as int],
{
    g.cells[[i, j]]
}

/// Assigning through `[[i, j]]`: the cell in row `i` and column `j` becomes
/// `v`, every other cell and the shape stay. It panics out of bounds, which
/// the precondition leaves out.
#[verifier::external_body]
fn grid_set(g: &mut Grid, i: usize, j: usize, v: i64)
    requires
        i < grid_cells(*old(g)).len(),
        j < grid_width(*old(g)),
    ensures
        grid_width(*final(g)) == grid_width(*old(g)),
        grid_cells(*final(g)) == grid_cells(*old(g)).update(
            i as int,
            grid_cells(*old(g))[i as int].update(j as int, v),
        ),
{
    g.cells[[i, j]] = v;
}

impl View for Grid {
    type V = Seq<Seq<i64>>;

    open spec fn view(&self) -> Seq<Seq<i64>> {
        grid_cells(*self)
    }
}

/// Whether every row of `cells` has `width` cells.
pub open spec fn rows_have_width(cells: Seq<Seq<i64>>, width: nat) -> bool {
    forall|i: int| 0 <= i < cells.len() ==> (#[trigger] cells[i]).len() == width
}

impl Grid {
    /// The number of columns.
    pub open spec fn width(&self) -> nat {
        grid_width(*self)
    }

    /// Every row has as many cells as the grid has columns.
    pub open spec fn rectangular(&self) -> bool {
        rows_have_width(self@, self.width())
    }

    /// A grid of `rows` by `cols` zeros, or `InvalidDimension` where the
    /// shape is too large to hold.
    pub fn zeros(rows: usize, cols: usize) -> (r: Result<Grid, PricingError>)
        ensures
            shape_fits(rows as nat, cols as nat) ==> (r matches Ok(g) && g@ == zero_cells(
                rows as nat,
                cols as nat,
            ) && g.width() == cols && g.rectangular()),
            !shape_fits(rows as nat, cols as nat) ==> r == Err::<Grid, PricingError>(
                PricingError::InvalidDimension,
            ),
    {
        let r: usize = if rows == 0 { 1 } else { rows };
        let c: usize = if cols == 0 { 1 } else { cols };
        match r.checked_mul(c) {
            Some(product) => {
                if product > isize::MAX as usize {
                    return Err(PricingError::InvalidDimension);
                }
                if rows != 0 && cols != 0 && product > isize::MAX as usize / CELL_BYTES {
                    return Err(PricingError::InvalidDimension);
                }
                proof {
                    if rows == 0 || cols == 0 {
                        assert(rows * cols * CELL_BYTES == 0) by (nonlinear_arith)
                            requires
                                rows == 0 || cols == 0,
                        ;
                    }
                }
                Ok(grid_zeros(rows, cols))
            },
            None => Err(PricingError::InvalidDimension),
        }
    }

    /// The number of rows and the number of columns.
    pub fn dim(&self) -> (d: (usize, usize))
        ensures
            d.0 == self@.len(),
            d.1 == self.width(),
            self.rectangular(),
    {
        grid_dim(self)
    }

    /// The cell in row `i` and column `j`, or `None` out of bounds.
    pub fn get(&self, i: usize, j: usize) -> (r: Option<i64>)
        ensures
            r == (if i < self@.len() && j < self.width() {
                Some(self@[i as int][j as int])
            } else {
                None
            }),
    {
        let (rows, cols) = grid_dim(self);
        if i < rows && j < cols {
            Some(grid_get(self, i, j))
        } else {
            None
        }
    }

    /// Writes `v` into row `i` and column `j`. Out of bounds nothing is
    /// written and `InvalidDimension` comes back.
    pub fn set(&mut self, i: usize, j: usize, v: i64) -> (r: Result<(), PricingError>)
        ensures
            final(self).width() == old(self).width(),
            i < old(self)@.len() && j < old(self).width() ==> r.is_ok() && final(self)@ == old(
                self,
            )@.update(i as int, old(self)@[i as int].update(j as int, v)),
            !(i < old(self)@.len() && j < old(self).width()) ==> r == Err::<(), PricingError>(
                PricingError::InvalidDimension,
            ) && final(self)@ == old(self)@,
    {
        let (rows, cols) = grid_dim(self);
        if i < rows && j < cols {
            grid_set(self, i, j, v);
            Ok(())
        } else {
            Err(PricingError::InvalidDimension)
        }
    }

    /// The cell in row `i` and column `j` of a grid that has it.
    pub(crate) fn at(&self, i: usize, j: usize) -> (v: i64)
        requires
            i < self@.len(),
            j < self.width(),
        ensures
            v == self@[i as int][j as int],
    {
        grid_get(self, i, j)
    }

    /// Writes `v` into row `i` and column `j` of a grid that has them.
    pub(crate) fn put(&mut self, i: usize, j: usize, v: i64)
        requires
            i < old(self)@.len(),
            j < old(self).width(),
        ensures
            final(self).width() == old(self).width(),
            final(self)@ == old(self)@.update(i as int, old(self)@[i as int].update(j as int, v)),
    {
        grid_set(self, i, j, v);
    }

    /// The grid that holds `data` in row-major order, for positive `rows`
    /// and `cols`; `None` where `data` has another length than `rows * cols`.
    pub(crate) fn from_row_major(rows: usize, cols: usize, data: Vec<i64>) -> (r: Option<Grid>)
        requires
            rows > 0,
            cols > 0,
        ensures
            r.is_some() <==> rows * cols == data@.len(),
            r matches Some(g) ==> g.width() == cols && g@ == row_major(
                data@,
                rows as nat,
                cols as nat,
            ),
    {
        match grid_from_shape_vec(rows, cols, data) {
            Ok(g) => Some(g),
            Err(_) => None,
        }
    }
}

} // verus!
