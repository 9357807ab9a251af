//! A lattice of cell states, stored row by row.

use vstd::prelude::*;
use vstd::string::StringExecFns;
use crate::error::AutomatonError;
use crate::text::{csv_text, decimal, push_decimal, write_csv};

verus! {

/// Which cells count as neighbours when regions are traced.
///
/// `SixConnected` is kept for hexagonal lattices; on the square lattice it
/// is traced like `FourConnected`.
#[derive(Clone, Copy, Debug, PartialEq, Eq, Structural)]
pub enum Connectivity {
    FourConnected,
    SixConnected,
    EightConnected,
}

/// What a lattice holds: its dimensions, its cells row by row, and the
/// adjacency its regions are traced with.
pub struct GridView {
    pub width: nat,
    pub height: nat,
    pub cells: Seq<usize>,
    pub connectivity: Connectivity,
}

impl GridView {
    /// The state of the cell in row `row` and column `column`.
    pub open spec fn at(self, row: int, column: int) -> usize {
        self.cells[row * self.width + column]
    }

    /// Whether regions are traced through diagonal neighbours too.
    pub open spec fn eight(self) -> bool {
        self.connectivity == Connectivity::EightConnected
    }

    /// The lattice holds one cell for each of its coordinates.
    pub open spec fn wf(self) -> bool {
        self.cells.len() == self.width * self.height
    }

    /// The same lattice with other cells.
    pub open spec fn with_cells(self, cells: Seq<usize>) -> GridView {
        GridView { cells, ..self }
    }
}

/// Every cell is 0 or 1.
pub open spec fn is_binary(cells: Seq<usize>) -> bool {
    forall|i: int| 0 <= i < cells.len() ==> #[trigger] cells[i] <= 1
}

/// A coordinate of a lattice has a place in its row-major storage, from
/// which the row and the column can be read back.
pub proof fn lemma_cell_index(row: int, column: int, width: int, height: int)
    requires
        0 <= row < height,
        0 <= column < width,
    ensures
        0 <= row * width + column < width * height,
        (row * width + column) / width == row,
        (row * width + column) % width == column,
{
    assert(row * width + column < width * height) by (nonlinear_arith)
        requires
            0 <= row < height,
            0 <= column < width,
    {
        assert((row + 1) * width <= height * width);
    }
    assert(0 <= row * width) by (nonlinear_arith)
        requires
            0 <= row,
            0 < width,
    ;
    vstd::arithmetic::div_mod::lemma_fundamental_div_mod_converse(
        row * width + column,
        width,
        row,
        column,
    );
}

/// Distinct coordinates of a lattice have distinct places in its storage.
pub proof fn lemma_cells_do_not_alias(
    width: int,
    height: int,
    row: int,
    column: int,
    other_row: int,
    other_column: int,
)
    requires
        0 <= row < height,
        0 <= column < width,
        0 <= other_row < height,
        0 <= other_column < width,
        row != other_row || column != other_column,
    ensures
        row * width + column != other_row * width + other_column,
{
    lemma_cell_index(row, column, width, height);
    lemma_cell_index(other_row, other_column, width, height);
}

/// Every place of the storage is the place of the coordinate
/// `(index / width, index % width)`.
pub proof fn lemma_index_cell(index: int, width: int, height: int)
    requires
        0 <= index < width * height,
        0 <= height,
    ensures
        0 < width,
        0 <= index / width < height,
        0 <= index % width < width,
        (index / width) * width + index % width == index,
{
    assert(0 < width) by (nonlinear_arith)
        requires
            0 <= index < width * height,
            0 <= height,
    ;
    vstd::arithmetic::div_mod::lemma_fundamental_div_mod(index, width);
    vstd::arithmetic::div_mod::lemma_mod_bound(index, width);
    let q = index / width;
    assert(q * width == width * q) by (nonlinear_arith);
    assert(0 <= q < height) by (nonlinear_arith)
        requires
            0 < width,
            0 <= index < width * height,
            index == width * q + index % width,
            0 <= index % width < width,
    ;
}

/// A lattice of `width` columns and `height` rows.
pub struct Grid {
    width: usize,
    height: usize,
    grid: Vec<usize>,
    connectivity: Connectivity,
}

impl View for Grid {
    type V = GridView;

    closed spec fn view(&self) -> GridView {
        GridView {
            width: self.width as nat,
            height: self.height as nat,
            cells: self.grid@,
            connectivity: self.connectivity,
        }
    }
}

impl Grid {
    /// A lattice holds one cell for each of its coordinates.
    pub open spec fn wf(&self) -> bool {
        self@.wf()
    }

    /// A lattice of zeros, traced four-connected.
    pub fn new(width: usize, height: usize) -> (g: Grid)
        requires
            width * height <= usize::MAX,
        ensures
            g.wf(),
            g@ == (GridView {
                width: width as nat,
                height: height as nat,
                cells: Seq::new((width * height) as nat, |i: int| 0usize),
                connectivity: Connectivity::FourConnected,
            }),
    {
        let grid: Vec<usize> = vec![0; width * height];
        assert(grid@ =~= Seq::new((width * height) as nat, |i: int| 0usize));
        Grid { width, height, grid, connectivity: Connectivity::FourConnected }
    }

    /// A lattice with the given cells, traced four-connected. The cells are
    /// taken row by row, and there must be one for each coordinate.
    pub fn from_cells(width: usize, height: usize, cells: Vec<usize>) -> (r: Result<
        Grid,
        AutomatonError,
    >)
        ensures
            cells@.len() == width * height ==> r is Ok,
            cells@.len() != width * height ==> r == Err::<Grid, AutomatonError>(
                AutomatonError::DimensionMismatch,
            ),
            r matches Ok(g) ==> g.wf() && g@ == (GridView {
                width: width as nat,
                height: height as nat,
                cells: cells@,
                connectivity: Connectivity::FourConnected,
            }),
    {
        let length = cells.len();
        let fits = match width.checked_mul(height) {
            Some(count) => count == length,
            None => false,
        };
        if fits {
            Ok(Grid { width, height, grid: cells, connectivity: Connectivity::FourConnected })
        } else {
            Err(AutomatonError::DimensionMismatch)
        }
    }

    /// The cells of a lattice can be counted by a machine integer.
    pub proof fn lemma_countable(&self)
        ensures
            self@.cells.len() <= usize::MAX,
    {
        assert(self.grid.len() == self.grid@.len());
    }

    /// The number of columns.
    pub fn width(&self) -> (w: usize)
        ensures
            w == self@.width,
    {
        self.width
    }

    /// The number of rows.
    pub fn height(&self) -> (h: usize)
        ensures
            h == self@.height,
    {
        self.height
    }

    /// The adjacency regions are traced with.
    pub fn connectivity(&self) -> (c: Connectivity)
        ensures
            c == self@.connectivity,
    {
        self.connectivity
    }

    /// Chooses the adjacency regions are traced with.
    pub fn set_connectivity(&mut self, connectivity: Connectivity)
        ensures
            final(self)@ == (GridView { connectivity, ..old(self)@ }),
    {
        self.connectivity = connectivity;
    }

    /// The cells, row by row.
    pub fn get_grid(&self) -> (cells: &Vec<usize>)
        ensures
            cells@ == self@.cells,
    {
        &self.grid
    }

    /// The state of the cell in row `row_index` and column `column_index`.
    pub fn get_value(&self, row_index: usize, column_index: usize) -> (value: usize)
        requires
            self.wf(),
            row_index < self@.height,
            column_index < self@.width,
        ensures
            value == self@.at(row_index as int, column_index as int),
    {
        proof {
            assert(self.grid.len() == self.grid@.len());
            lemma_cell_index(
                row_index as int,
                column_index as int,
                self.width as int,
                self.height as int,
            );
        }
        self.grid[row_index * self.width + column_index]
    }

    /// Gives the cell in row `row_index` and column `column_index` the state
    /// `value`. Every other cell stays as it is.
    pub fn set_value(&mut self, row_index: usize, column_index: usize, value: usize)
        requires
            old(self).wf(),
            row_index < old(self)@.height,
            column_index < old(self)@.width,
        ensures
            final(self).wf(),
            final(self)@ == old(self)@.with_cells(
                old(self)@.cells.update(row_index * old(self)@.width + column_index, value),
            ),
    {
        proof {
            assert(self.grid.len() == self.grid@.len());
            lemma_cell_index(
                row_index as int,
                column_index as int,
                self.width as int,
                self.height as int,
            );
        }
        let index = row_index * self.width + column_index;
        self.grid.set(index, value);
    }

    /// A lattice of the same dimensions and adjacency with the given cells,
    /// taken row by row.
    pub fn with_cells(&self, cells: Vec<usize>) -> (g: Grid)
        requires
            cells@.len() == self@.cells.len(),
        ensures
            g@ == self@.with_cells(cells@),
    {
        Grid {
            width: self.width,
            height: self.height,
            grid: cells,
            connectivity: self.connectivity,
        }
    }

    /// Replaces all cells at once; the new cells are taken row by row.
    pub fn replace_cells(&mut self, cells: Vec<usize>)
        requires
            cells@.len() == old(self)@.cells.len(),
        ensures
            final(self)@ == old(self)@.with_cells(cells@),
    {
        self.grid = cells;
    }

    /// The cells as comma-separated values, one line for each row.
    pub fn get_grid_str(&self) -> (text: String)
        requires
            self.wf(),
        ensures
            text@ == csv_text(self@.cells, self@.width as int, self@.cells.len() as int),
    {
        proof {
            if self.grid@.len() > 0 {
                lemma_index_cell(0, self.width as int, self.height as int);
            }
        }
        write_csv(&self.grid, self.width)
    }

    /// The lattice as text: its cells as comma-separated values.
    pub fn to_string(&self) -> (text: String)
        requires
            self.wf(),
        ensures
            text@ == csv_text(self@.cells, self@.width as int, self@.cells.len() as int),
    {
        self.get_grid_str()
    }

    /// The name of the file that the comma-separated values of this lattice
    /// are kept in.
    pub fn csv_file_name(&self) -> (name: String)
        ensures
            name@ == "./width"@ + decimal(self@.width) + "|height"@ + decimal(self@.height)
                + ".csv"@,
    {
        let mut name: String = String::new();
        name.append("./width");
        push_decimal(&mut name, self.width);
        name.append("|height");
        push_decimal(&mut name, self.height);
        name.append(".csv");
        assert(name@ =~= "./width"@ + decimal(self@.width) + "|height"@ + decimal(self@.height)
            + ".csv"@);
        name
    }
}

} // verus!
