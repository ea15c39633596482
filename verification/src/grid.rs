//! The grid of cell values, row-major.

use crate::catalog::{resolved, Catalog};
use crate::tile::{Cell, Tile};
use vstd::prelude::*;

verus! {

/// The mathematical value of a [`Grid`].
pub struct GridView {
    pub width: nat,
    pub height: nat,
    /// The cell values, row after row.
    pub cells: Seq<u32>,
}

/// A grid of cell values. Value 0 is the empty cell; any other value
/// refers to the tile with that grid value.
pub struct Grid {
    width: usize,
    height: usize,
    cells: Vec<u32>,
}

/// Why a grid was refused.
#[derive(Clone, Copy, Debug, PartialEq, Eq, Structural)]
pub enum GridError {
    /// The number of values is not width times height.
    SizeMismatch,
}

/// Row `y` of a grid, each value resolved through the tiles of a catalog.
pub open spec fn row_cells(tiles: Map<u32, Tile>, grid: GridView, y: int) -> Seq<Cell> {
    Seq::new(grid.width, |x: int| resolved(tiles, grid.cells[y * grid.width + x]))
}

impl View for Grid {
    type V = GridView;

    closed spec fn view(&self) -> GridView {
        GridView { width: self.width as nat, height: self.height as nat, cells: self.cells@ }
    }
}

impl Grid {
    #[verifier::type_invariant]
    spec fn sized(&self) -> bool {
        self.cells@.len() == self.width * self.height
    }

    /// A grid of `width` by `height` cells; refused unless `cells` holds
    /// exactly `width * height` values.
    pub fn new(width: usize, height: usize, cells: Vec<u32>) -> (r: Result<Grid, GridError>)
        ensures
            match r {
                Ok(grid) => cells@.len() == width * height && grid@ == (GridView {
                    width: width as nat,
                    height: height as nat,
                    cells: cells@,
                }),
                Err(e) => cells@.len() != width * height && e == GridError::SizeMismatch,
            },
    {
        let held: usize = cells.len();
        let fits: bool = match width.checked_mul(height) {
            Some(n) => n == held,
            None => false,
        };
        if fits {
            Ok(Grid { width, height, cells })
        } else {
            Err(GridError::SizeMismatch)
        }
    }

    /// Cells in a row.
    pub fn width(&self) -> (w: usize)
        ensures
            w == self@.width,
    {
        self.width
    }

    /// Rows.
    pub fn height(&self) -> (h: usize)
        ensures
            h == self@.height,
    {
        self.height
    }

    /// The value of the cell at column `x` of row `y`.
    pub fn value(&self, x: usize, y: usize) -> (v: u32)
        requires
            x < self@.width,
            y < self@.height,
        ensures
            self@.cells.len() == self@.width * self@.height,
            0 <= y * self@.width + x < self@.cells.len(),
            v == self@.cells[y * self@.width + x],
    {
        proof {
            use_type_invariant(self);
            lemma_cell_in_grid(x as int, y as int, self.width as int, self.height as int);
        }
        let held: usize = self.cells.len();
        assert(0 <= y * self.width <= y * self.width + x < held) by (nonlinear_arith)
            requires
                0 <= x,
                0 <= y,
                0 <= self.width,
                y * self.width + x < held,
        ;
        self.cells[y * self.width + x]
    }

    /// Row `y`, each value resolved through the catalog.
    pub fn row(&self, catalog: &Catalog, y: usize) -> (cells: Vec<Cell>)
        requires
            y < self@.height,
        ensures
            cells@ == row_cells(catalog@.tiles, self@, y as int),
    {
        let mut out: Vec<Cell> = Vec::new();
        let mut x: usize = 0;
        while x < self.width
            invariant
                x <= self.width,
                y < self@.height,
                self.width == self@.width,
                out@.len() == x,
                forall|k: int|
                    0 <= k < x ==> out@[k] == resolved(
                        catalog@.tiles,
                        self@.cells[y * self@.width + k],
                    ),
            decreases self.width - x,
        {
            let v: u32 = self.value(x, y);
            out.push(catalog.resolve(v));
            x += 1;
        }
        assert(out@ =~= row_cells(catalog@.tiles, self@, y as int));
        out
    }
}

/// The cell at column `x` of row `y` lies inside the grid.
pub proof fn lemma_cell_in_grid(x: int, y: int, width: int, height: int)
    requires
        0 <= x < width,
        0 <= y < height,
    ensures
        0 <= y * width + x < width * height,
{
    assert(y * width + x < width * height) by (nonlinear_arith)
        requires
            0 <= x < width,
            0 <= y < height,
    ;
    assert(0 <= y * width) by (nonlinear_arith)
        requires
            0 <= y,
            0 <= width,
    ;
}

} // verus!
