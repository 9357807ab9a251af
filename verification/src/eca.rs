//! Elementary automata: one row of cells, each generation written on the
//! row below the one before.

use vstd::prelude::*;
use vstd::string::StringExecFns;
use crate::error::AutomatonError;
use crate::generation::{read_rule_bit, rule_bit};
use crate::grid::{lemma_cell_index, Connectivity, Grid, GridView};
use crate::regions::region_labels;
use crate::text::{csv_text, decimal, push_decimal};

verus! {

/// The elementary rules of which no two are the same up to mirroring the
/// row and exchanging the two states.
pub const RULES: [u8; 88] = [
    0, 1, 2, 3, 4, 5, 6, 7, 8, 9, 10, 11, 12, 13, 14, 15, 18, 19, 22, 23, 24, 25, 26, 27, 28, 29,
    30, 32, 33, 34, 35, 36, 37, 38, 40, 41, 42, 43, 44, 45, 46, 50, 51, 54, 56, 57, 58, 60, 62, 72,
    73, 74, 76, 77, 78, 90, 94, 104, 105, 106, 108, 110, 122, 126, 128, 130, 132, 134, 136, 138,
    140, 142, 146, 150, 152, 154, 156, 160, 162, 164, 168, 170, 172, 178, 184, 200, 204, 232,
];

/// What an elementary automaton holds: its rule, its lattice with one row
/// for each generation, and the row it started from.
pub struct EcaView {
    pub rule: u8,
    pub width: nat,
    pub height: nat,
    pub universe: GridView,
    pub seed: Seq<usize>,
}

impl EcaView {
    /// The lattice has the dimensions of the automaton, and the seed is one
    /// row that the lattice has room for.
    pub open spec fn wf(self) -> bool {
        &&& self.universe.wf()
        &&& self.universe.width == self.width
        &&& self.universe.height == self.height
        &&& self.seed.len() == self.width
        &&& (self.width > 0 ==> self.height > 0)
    }

    /// The same automaton with other cells.
    pub open spec fn with_cells(self, cells: Seq<usize>) -> EcaView {
        EcaView { universe: self.universe.with_cells(cells), ..self }
    }
}

/// The number that the states of a cell's left neighbour, the cell and its
/// right neighbour make up: the states side by side as bits, cut to a byte.
/// Of states that are 0 or 1 this is `4 * a + 2 * b + c`.
pub open spec fn neighbourhood(a: usize, b: usize, c: usize) -> usize {
    ((a << 2) | (b << 1) | c) & 0xff
}

/// Three states that are 0 or 1 make up the number whose binary digits they are.
pub proof fn lemma_neighbourhood_of_bits(a: usize, b: usize, c: usize)
    requires
        a <= 1,
        b <= 1,
        c <= 1,
    ensures
        neighbourhood(a, b, c) == 4 * a + 2 * b + c,
{
    assert(((a << 2) | (b << 1) | c) & 0xff == 4 * a + 2 * b + c) by (bit_vector)
        requires
            a <= 1,
            b <= 1,
            c <= 1,
    ;
}

/// The state that the cell in column `column` of row `row` finds to its
/// left. The row is read as a ring, so the first cell finds the last one;
/// a left neighbour in the first column counts as 0.
pub open spec fn left_state(cells: Seq<usize>, width: int, row: int, column: int) -> usize {
    let left = if column == 0 {
        width - 1
    } else {
        column - 1
    };
    if left == 0 {
        0
    } else {
        cells[row * width + left]
    }
}

/// The state that the cell in column `column` of row `row` finds to its
/// right. The row is read as a ring, so the last cell finds the first one;
/// a right neighbour in the last column counts as 0.
pub open spec fn right_state(cells: Seq<usize>, width: int, row: int, column: int) -> usize {
    let right = (column + 1) % width;
    if right == width - 1 {
        0
    } else {
        cells[row * width + right]
    }
}

/// The number made up by the neighbourhood of a cell.
pub open spec fn radius_of(cells: Seq<usize>, width: int, row: int, column: int) -> usize {
    neighbourhood(
        left_state(cells, width, row, column),
        cells[row * width + column],
        right_state(cells, width, row, column),
    )
}

/// The state that rule `rule` gives the cell below the cell in column
/// `column` of row `row`: the bit of the rule whose index is the number
/// made up by the neighbourhood.
pub open spec fn state_below(
    rule: u8,
    cells: Seq<usize>,
    width: int,
    row: int,
    column: int,
) -> usize {
    rule_bit(rule as usize, radius_of(cells, width, row, column) as int)
}

/// A lattice whose first row holds the seed and whose other cells are 0.
pub open spec fn seeded(seed: Seq<usize>, width: int, height: int) -> Seq<usize> {
    Seq::new(
        (width * height) as nat,
        |i: int|
            if i < width {
                seed[i]
            } else {
                0usize
            },
    )
}

/// The four bytes of the pixel of a cell: white for state 0, and for any
/// other state its three low bytes, lowest first, followed by full opacity.
pub open spec fn pixel_of(cell: usize) -> Seq<u8> {
    if cell == 0 {
        seq![0xffu8, 0xffu8, 0xffu8, 0xffu8]
    } else {
        seq![(cell & 0xff) as u8, ((cell >> 8) & 0xff) as u8, ((cell >> 16) & 0xff) as u8, 0xffu8]
    }
}

/// The pixels of the first `upto` cells, one after the other.
pub open spec fn pixels_of(cells: Seq<usize>, upto: int) -> Seq<u8>
    decreases upto,
{
    if upto <= 0 {
        Seq::empty()
    } else {
        pixels_of(cells, upto - 1) + pixel_of(cells[upto - 1])
    }
}

/// An elementary automaton with the generations it has computed.
pub struct ECA {
    rule: u8,
    width: usize,
    height: usize,
    initial_configuration: Vec<usize>,
    universe: Grid,
}

impl View for ECA {
    type V = EcaView;

    closed spec fn view(&self) -> EcaView {
        EcaView {
            rule: self.rule,
            width: self.width as nat,
            height: self.height as nat,
            universe: self.universe@,
            seed: self.initial_configuration@,
        }
    }
}

impl ECA {
    /// The lattice and the seed have the dimensions of the automaton.
    pub open spec fn wf(&self) -> bool {
        self@.wf()
    }

    /// A lattice of zeros with the seed on its first row.
    fn seeded_universe(width: usize, height: usize, seed: &Vec<usize>) -> (universe: Grid)
        requires
            width * height <= usize::MAX,
            seed@.len() == width,
            width > 0 ==> height > 0,
        ensures
            universe.wf(),
            universe@.width == width,
            universe@.height == height,
            universe@.cells == seeded(seed@, width as int, height as int),
            universe@.connectivity == Connectivity::FourConnected,
    {
        let mut universe: Grid = Grid::new(width, height);
        let mut column_index: usize = 0;
        while column_index < seed.len()
            invariant
                seed@.len() == width,
                width > 0 ==> height > 0,
                column_index <= width,
                universe.wf(),
                universe@.width == width,
                universe@.height == height,
                universe@.connectivity == Connectivity::FourConnected,
                forall|i: int|
                    0 <= i < universe@.cells.len() ==> #[trigger] universe@.cells[i] == (if i
                        < column_index {
                        seed@[i]
                    } else {
                        0usize
                    }),
            decreases width - column_index,
        {
            let row_index: usize = 0;
            proof {
                lemma_cell_index(0, column_index as int, width as int, height as int);
            }
            universe.set_value(row_index, column_index, seed[column_index]);
            column_index = column_index + 1;
        }
        assert(universe@.cells =~= seeded(seed@, width as int, height as int));
        universe
    }

    /// An automaton of `height` generations on rows of `width` cells. The
    /// first row is the initial configuration, every later row is blank.
    pub fn new(rule: u8, width: usize, height: usize, initial_configuration: Vec<usize>) -> (r:
        Result<ECA, AutomatonError>)
        ensures
            r is Ok <==> initial_configuration@.len() == width && width * height <= usize::MAX
                && (width > 0 ==> height > 0),
            r matches Err(e) ==> e == AutomatonError::DimensionMismatch,
            r matches Ok(automaton) ==> automaton.wf() && automaton@ == (EcaView {
                rule,
                width: width as nat,
                height: height as nat,
                universe: GridView {
                    width: width as nat,
                    height: height as nat,
                    cells: seeded(initial_configuration@, width as int, height as int),
                    connectivity: Connectivity::FourConnected,
                },
                seed: initial_configuration@,
            }),
    {
        if initial_configuration.len() != width || (width > 0 && height == 0) {
            return Err(AutomatonError::DimensionMismatch);
        }
        if width.checked_mul(height).is_none() {
            return Err(AutomatonError::DimensionMismatch);
        }
        let universe: Grid = ECA::seeded_universe(width, height, &initial_configuration);
        Ok(ECA { rule, width, height, initial_configuration, universe })
    }

    /// The rule number.
    pub fn rule(&self) -> (rule: u8)
        ensures
            rule == self@.rule,
    {
        self.rule
    }

    /// The number of cells in a row.
    pub fn width(&self) -> (width: usize)
        ensures
            width == self@.width,
    {
        self.width
    }

    /// The number of rows.
    pub fn height(&self) -> (height: usize)
        ensures
            height == self@.height,
    {
        self.height
    }

    /// The lattice, one row for each generation.
    pub fn universe(&self) -> (universe: &Grid)
        ensures
            universe@ == self@.universe,
    {
        &self.universe
    }

    /// The state of the cell in column `column_index` of generation `row_index`.
    pub fn get_value(&self, row_index: usize, column_index: usize) -> (value: usize)
        requires
            self.wf(),
            row_index < self@.height,
            column_index < self@.width,
        ensures
            value == self@.universe.at(row_index as int, column_index as int),
    {
        self.universe.get_value(row_index, column_index)
    }

    /// Gives the cell in column `column_index` of generation `row_index`
    /// the state `value`. Every other cell stays as it is.
    pub fn set_value(&mut self, row_index: usize, column_index: usize, value: usize)
        requires
            old(self).wf(),
            row_index < old(self)@.height,
            column_index < old(self)@.width,
        ensures
            final(self).wf(),
            final(self)@ == old(self)@.with_cells(
                old(self)@.universe.cells.update(
                    row_index * old(self)@.width + column_index,
                    value,
                ),
            ),
    {
        self.universe.set_value(row_index, column_index, value);
    }

    /// The number made up by the neighbourhood of a cell.
    fn get_radius(&self, row_index: usize, column_index: usize) -> (radius: u8)
        requires
            self.wf(),
            row_index < self@.height,
            column_index < self@.width,
        ensures
            radius == radius_of(
                self@.universe.cells,
                self@.width as int,
                row_index as int,
                column_index as int,
            ),
    {
        let left: usize = if column_index == 0 {
            self.width - 1
        } else {
            column_index - 1
        };
        let right: usize = (column_index + 1) % self.width;
        let a: usize = if left == 0 {
            0
        } else {
            self.get_value(row_index, left)
        };
        let b: usize = self.get_value(row_index, column_index);
        let c: usize = if right == self.width - 1 {
            0
        } else {
            self.get_value(row_index, right)
        };
        let radius: usize = ((a << 2) | (b << 1) | c) & 0xff;
        assert(((a << 2) | (b << 1) | c) & 0xff < 256) by (bit_vector);
        radius as u8
    }

    /// The bit of the rule whose index is `radius`.
    fn rule_lookup(&self, radius: u8) -> (state: usize)
        ensures
            state == rule_bit(self@.rule as usize, radius as int),
            state == 0 || state == 1,
    {
        read_rule_bit(self.rule as usize, radius as usize)
    }

    /// Computes row `row_index` from the row above it.
    fn increase_generation(&mut self, row_index: usize)
        requires
            old(self).wf(),
            1 <= row_index < old(self)@.height,
        ensures
            final(self).wf(),
            final(self)@ == old(self)@.with_cells(final(self)@.universe.cells),
            forall|i: int|
                0 <= i < old(self)@.universe.cells.len() && !(row_index * old(self)@.width <= i < (
                row_index + 1) * old(self)@.width) ==> #[trigger] final(self)@.universe.cells[i]
                    == old(self)@.universe.cells[i],
            forall|c: int|
                0 <= c < old(self)@.width ==> #[trigger] final(self)@.universe.cells[row_index
                    * old(self)@.width + c] == state_below(
                    old(self)@.rule,
                    old(self)@.universe.cells,
                    old(self)@.width as int,
                    row_index - 1,
                    c,
                ),
    {
        let ghost before = self@;
        let ghost w = self.width as int;
        let mut cell_index: usize = 0;
        while cell_index < self.width
            invariant
                self.wf(),
                before == old(self)@,
                before.wf(),
                w == self.width,
                1 <= row_index < self.height,
                cell_index <= self.width,
                self@ == before.with_cells(self@.universe.cells),
                forall|i: int|
                    0 <= i < before.universe.cells.len() && !(row_index * w <= i < row_index * w
                        + cell_index) ==> #[trigger] self@.universe.cells[i]
                        == before.universe.cells[i],
                forall|c: int|
                    0 <= c < cell_index ==> #[trigger] self@.universe.cells[row_index * w + c]
                        == state_below(before.rule, before.universe.cells, w, row_index - 1, c),
            decreases self.width - cell_index,
        {
            proof {
                lemma_cell_index(row_index as int, cell_index as int, w, self.height as int);
                lemma_cell_index(row_index - 1, cell_index as int, w, self.height as int);
                lemma_cell_index(row_index - 1, w - 1, w, self.height as int);
                lemma_cell_index(row_index - 1, 0, w, self.height as int);
                if cell_index > 0 {
                    lemma_cell_index(row_index - 1, cell_index - 1, w, self.height as int);
                }
                lemma_cell_index(
                    row_index - 1,
                    (cell_index + 1) % w,
                    w,
                    self.height as int,
                );
                assert((row_index - 1) * w + w == row_index * w) by (nonlinear_arith);
            }
            let radius: u8 = self.get_radius(row_index - 1, cell_index);
            let new_bit: usize = self.rule_lookup(radius);
            self.set_value(row_index, cell_index, new_bit);
            cell_index = cell_index + 1;
        }
        proof {
            assert(row_index * w + w == (row_index + 1) * w) by (nonlinear_arith);
        }
    }

    /// Computes every row after the first from the row above it.
    pub fn generate(&mut self)
        requires
            old(self).wf(),
        ensures
            final(self).wf(),
            final(self)@ == old(self)@.with_cells(final(self)@.universe.cells),
            forall|c: int|
                0 <= c < old(self)@.width ==> #[trigger] final(self)@.universe.cells[c]
                    == old(self)@.universe.cells[c],
            forall|r: int, c: int|
                1 <= r < old(self)@.height && 0 <= c < old(self)@.width
                    ==> #[trigger] final(self)@.universe.at(r, c) == state_below(
                    old(self)@.rule,
                    final(self)@.universe.cells,
                    old(self)@.width as int,
                    r - 1,
                    c,
                ),
    {
        let ghost before = self@;
        let ghost w = self.width as int;
        let mut row_index: usize = 1;
        while row_index < self.height
            invariant
                self.wf(),
                before == old(self)@,
                before.wf(),
                w == self.width,
                1 <= row_index,
                self.height > 0 ==> row_index <= self.height,
                self@ == before.with_cells(self@.universe.cells),
                forall|c: int|
                    0 <= c < w ==> #[trigger] self@.universe.cells[c] == before.universe.cells[c],
                forall|r: int, c: int|
                    1 <= r < row_index && 0 <= c < w ==> #[trigger] self@.universe.at(r, c)
                        == state_below(before.rule, self@.universe.cells, w, r - 1, c),
            decreases self.height - row_index,
        {
            let ghost previous = self@.universe.cells;
            let ghost earlier = self@;
            self.increase_generation(row_index);
            proof {
                let now = self@.universe.cells;
                assert forall|c: int| 0 <= c < w implies #[trigger] now[c]
                    == before.universe.cells[c] by {
                    lemma_rows_apart(w, self.height as int, 0, c, row_index as int);
                }
                assert forall|r: int, c: int|
                    1 <= r < row_index + 1 && 0 <= c < w implies #[trigger] self@.universe.at(r, c)
                    == state_below(before.rule, now, w, r - 1, c) by {
                    lemma_row_above_untouched(
                        previous,
                        now,
                        w,
                        self.height as int,
                        r - 1,
                        c,
                        row_index as int,
                    );
                    if r < row_index {
                        lemma_rows_apart(w, self.height as int, r, c, row_index as int);
                        assert(now[r * w + c] == previous[r * w + c]);
                        assert(earlier.universe.at(r, c) == state_below(
                            before.rule,
                            previous,
                            w,
                            r - 1,
                            c,
                        ));
                    } else {
                        assert(now[row_index * earlier.width + c] == state_below(
                            before.rule,
                            previous,
                            w,
                            row_index - 1,
                            c,
                        ));
                    }
                }
            }
            row_index = row_index + 1;
        }
    }

    /// The pixels of the lattice, cell by cell in row-major order, four
    /// bytes each.
    pub fn get_flattened_universe(&self) -> (pixels: Vec<u8>)
        requires
            self.wf(),
        ensures
            pixels@ == pixels_of(self@.universe.cells, self@.universe.cells.len() as int),
    {
        let mut universe: Vec<u8> = Vec::new();
        let mut row_index: usize = 0;
        while row_index < self.height
            invariant
                self.wf(),
                row_index <= self.height,
                universe@ == pixels_of(self@.universe.cells, row_index * self.width),
            decreases self.height - row_index,
        {
            let mut column_index: usize = 0;
            while column_index < self.width
                invariant
                    self.wf(),
                    row_index < self.height,
                    column_index <= self.width,
                    universe@ == pixels_of(
                        self@.universe.cells,
                        row_index * self.width + column_index,
                    ),
                decreases self.width - column_index,
            {
                proof {
                    lemma_cell_index(
                        row_index as int,
                        column_index as int,
                        self.width as int,
                        self.height as int,
                    );
                }
                let cell: usize = self.get_value(row_index, column_index);
                if cell == 0 {
                    universe.push(0xff);
                    universe.push(0xff);
                    universe.push(0xff);
                    universe.push(0xff);
                } else {
                    assert(cell & 0xff < 256 && (cell >> 8) & 0xff < 256 && (cell >> 16) & 0xff
                        < 256) by (bit_vector);
                    let a: u8 = (cell & 0xff) as u8;
                    let b: u8 = ((cell >> 8) & 0xff) as u8;
                    let c: u8 = ((cell >> 16) & 0xff) as u8;
                    universe.push(a);
                    universe.push(b);
                    universe.push(c);
                    universe.push(0xff);
                }
                assert(universe@ =~= pixels_of(
                    self@.universe.cells,
                    row_index * self.width + column_index,
                ) + pixel_of(cell));
                column_index = column_index + 1;
            }
            assert(row_index * self.width + self.width == (row_index + 1) * self.width)
                by (nonlinear_arith);
            row_index = row_index + 1;
        }
        assert(self.height * self.width == self.width * self.height) by (nonlinear_arith);
        universe
    }

    /// Replaces every cell by the consecutive label of its region.
    pub fn generate_connected_components(&mut self)
        requires
            old(self).wf(),
            old(self)@.universe.cells.len() < usize::MAX,
        ensures
            final(self).wf(),
            final(self)@ == old(self)@.with_cells(region_labels(old(self)@.universe, true)),
    {
        self.universe.label_connected_components();
    }

    /// Puts the automaton back where it started: the initial configuration
    /// on the first row, every later row blank.
    pub fn reset(&mut self)
        requires
            old(self).wf(),
        ensures
            final(self).wf(),
            final(self)@ == (EcaView {
                universe: GridView {
                    cells: seeded(
                        old(self)@.seed,
                        old(self)@.width as int,
                        old(self)@.height as int,
                    ),
                    connectivity: Connectivity::FourConnected,
                    ..old(self)@.universe
                },
                ..old(self)@
            }),
    {
        proof {
            self.universe.lemma_countable();
        }
        let universe: Grid = ECA::seeded_universe(
            self.width,
            self.height,
            &self.initial_configuration,
        );
        self.universe = universe;
    }

    /// The automaton as text: its rule, then its lattice as comma-separated
    /// values.
    pub fn to_string(&self) -> (text: String)
        requires
            self.wf(),
        ensures
            text@ == "Rule : "@ + decimal(self@.rule as nat) + " | universe : \n"@ + csv_text(
                self@.universe.cells,
                self@.width as int,
                self@.universe.cells.len() as int,
            ) + " "@,
    {
        let mut text: String = String::new();
        text.append("Rule : ");
        push_decimal(&mut text, self.rule as usize);
        text.append(" | universe : \n");
        let universe = self.universe.get_grid_str();
        text.append(universe.as_str());
        text.append(" ");
        assert(text@ =~= "Rule : "@ + decimal(self@.rule as nat) + " | universe : \n"@ + csv_text(
            self@.universe.cells,
            self@.width as int,
            self@.universe.cells.len() as int,
        ) + " "@);
        text
    }

    /// The name of the file that the picture of this automaton is kept in.
    pub fn image_file_name(&self) -> (name: String)
        ensures
            name@ == "./rule"@ + decimal(self@.rule as nat) + "length"@ + decimal(self@.width)
                + ".png"@,
    {
        let mut name: String = String::new();
        name.append("./rule");
        push_decimal(&mut name, self.rule as usize);
        name.append("length");
        push_decimal(&mut name, self.width);
        name.append(".png");
        assert(name@ =~= "./rule"@ + decimal(self@.rule as nat) + "length"@ + decimal(
            self@.width,
        ) + ".png"@);
        name
    }
}

/// The places of a row lie apart from the places of every later row.
proof fn lemma_rows_apart(width: int, height: int, row: int, column: int, later: int)
    requires
        0 <= row < height,
        0 <= column < width,
        row < later,
    ensures
        0 <= row * width + column < later * width,
        0 <= row * width + column < width * height,
{
    lemma_cell_index(row, column, width, height);
    assert((row + 1) * width <= later * width) by (nonlinear_arith)
        requires
            row + 1 <= later,
            width > 0,
    ;
    assert(row * width + column < (row + 1) * width) by (nonlinear_arith)
        requires
            column < width,
    ;
}

/// A neighbourhood in a row that was left untouched makes up the same number.
proof fn lemma_row_above_untouched(
    previous: Seq<usize>,
    now: Seq<usize>,
    width: int,
    height: int,
    row: int,
    column: int,
    written: int,
)
    requires
        0 <= row < written < height,
        0 <= column < width,
        previous.len() == width * height,
        now.len() == previous.len(),
        forall|i: int|
            0 <= i < previous.len() && !(written * width <= i < (written + 1) * width)
                ==> #[trigger] now[i] == previous[i],
    ensures
        radius_of(now, width, row, column) == radius_of(previous, width, row, column),
{
    lemma_rows_apart(width, height, row, column, written);
    lemma_rows_apart(width, height, row, width - 1, written);
    lemma_rows_apart(width, height, row, 0, written);
    if column > 0 {
        lemma_rows_apart(width, height, row, column - 1, written);
    }
    lemma_rows_apart(width, height, row, (column + 1) % width, written);
    assert(now[row * width + column] == previous[row * width + column]);
}

} // verus!
