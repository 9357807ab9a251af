//! Totalistic and outer-totalistic automata on a two-dimensional lattice.

use vstd::prelude::*;
use vstd::string::StringExecFns;
use crate::boundary::{lemma_resolve_null, Boundary, BoundaryType};
use crate::compass_direction::{compass_table, direction_at, lemma_compass_table_shape, Compass};
use crate::error::AutomatonError;
use crate::generation::{
    inserted, insertion_fits, lemma_overwrite_all, lemma_overwrite_next, lemma_total_bounds,
    next_page, next_state, overwritten, page_after, radius_at, read_rule_bit, rule_bit,
    state_toward, sum_states,
};
use crate::grid::{lemma_cell_index, lemma_index_cell, Connectivity, Grid, GridView};
use crate::text::{decimal, page_text, push_decimal, write_page};

verus! {

/// What a universe holds: its rule, its dimensions, the adjacency that the
/// regions of its pages are traced with, and its pages, one generation
/// each, oldest first.
pub struct UniverseView {
    pub rule: usize,
    pub width: nat,
    pub height: nat,
    pub depth: nat,
    pub moore: bool,
    pub outer_totalistic: bool,
    pub policy: BoundaryType,
    pub connectivity: Connectivity,
    pub pages: Seq<Seq<usize>>,
    pub seed: Seq<usize>,
}

impl UniverseView {
    /// A universe keeps `depth` pages, at least one, and each page and the
    /// seed hold one cell for each coordinate.
    pub open spec fn wf(self) -> bool {
        &&& self.depth >= 1
        &&& self.pages.len() == self.depth
        &&& self.seed.len() == self.width * self.height
        &&& forall|k: int|
            0 <= k < self.pages.len() ==> (#[trigger] self.pages[k]).len() == self.width
                * self.height
    }

    /// The same universe with other pages.
    pub open spec fn with_pages(self, pages: Seq<Seq<usize>>) -> UniverseView {
        UniverseView { pages, ..self }
    }

    /// The page that follows `page` under the rule of this universe.
    pub open spec fn next_of(self, page: Seq<usize>) -> Seq<usize> {
        next_page(
            self.rule,
            self.outer_totalistic,
            self.moore,
            self.width as int,
            self.height as int,
            page,
        )
    }

    /// The page `steps` generations after `page` under the rule of this universe.
    pub open spec fn page_after(self, page: Seq<usize>, steps: nat) -> Seq<usize> {
        page_after(
            self.rule,
            self.outer_totalistic,
            self.moore,
            self.width as int,
            self.height as int,
            page,
            steps,
        )
    }

    /// The nine states around and at a cell of `page`.
    pub open spec fn radius_at(self, page: Seq<usize>, row: int, column: int) -> Seq<usize> {
        radius_at(page, self.width as int, self.height as int, self.moore, row, column)
    }

    /// The universe after one advance that keeps no history: the page that
    /// follows the first page has taken its place.
    pub open spec fn rolled_once(self) -> UniverseView {
        self.with_pages(self.pages.update(0, self.next_of(self.pages[0])))
    }

    /// The universe after `advances` advances that keep no history.
    pub open spec fn rolled(self, advances: nat) -> UniverseView
        decreases advances,
    {
        if advances == 0 {
            self
        } else {
            self.rolled((advances - 1) as nat).rolled_once()
        }
    }

    /// The state of the cell in row `row` and column `column` of page `page`.
    pub open spec fn at(self, page: int, row: int, column: int) -> usize {
        self.pages[page][row * self.width + column]
    }
}

/// The first `upto` pages as text: for each page a heading with its index,
/// its rows of numerals, and an empty line.
pub open spec fn universe_text(pages: Seq<Seq<usize>>, width: int, upto: int) -> Seq<char>
    decreases upto,
{
    if upto <= 0 {
        Seq::empty()
    } else {
        universe_text(pages, width, upto - 1) + "page : "@ + decimal((upto - 1) as nat) + "\n"@
            + page_text(pages[upto - 1], width, pages[upto - 1].len() as int) + "\n"@
    }
}

/// However often a universe advances without keeping history, it keeps the
/// pages it had, neither more nor fewer: a universe of one page stays a
/// universe of one page. Its first page is then as many generations on as
/// it has advanced, and its other pages are as they were.
pub proof fn lemma_rolling_keeps_the_pages(u: UniverseView, advances: nat)
    requires
        u.wf(),
    ensures
        u.rolled(advances).wf(),
        u.rolled(advances).pages.len() == u.pages.len(),
        u.depth == 1 ==> u.rolled(advances).pages.len() == 1,
        u.rolled(advances).pages[0] == u.page_after(u.pages[0], advances),
        u.rolled(advances) == u.with_pages(
            u.pages.update(0, u.page_after(u.pages[0], advances)),
        ),
    decreases advances,
{
    if advances > 0 {
        lemma_rolling_keeps_the_pages(u, (advances - 1) as nat);
        let before = u.rolled((advances - 1) as nat);
        let after = before.rolled_once();
        assert(after.pages =~= u.pages.update(0, u.page_after(u.pages[0], advances)));
        assert forall|k: int| 0 <= k < after.pages.len() implies (#[trigger] after.pages[k]).len()
            == after.width * after.height by {
            if k != 0 {
                assert(after.pages[k] == before.pages[k]);
            }
        }
    } else {
        assert(u.pages =~= u.pages.update(0, u.page_after(u.pages[0], 0)));
    }
}

/// A two-dimensional automaton with the pages it has computed.
pub struct TCA2D {
    rule: usize,
    width: usize,
    height: usize,
    depth: usize,
    moore: bool,
    outer_totalistic: bool,
    compass: Compass,
    boundary: Boundary,
    connectivity: Connectivity,
    universe: Vec<Grid>,
    initial_configuration: Vec<usize>,
}

impl View for TCA2D {
    type V = UniverseView;

    closed spec fn view(&self) -> UniverseView {
        UniverseView {
            rule: self.rule,
            width: self.width as nat,
            height: self.height as nat,
            depth: self.depth as nat,
            moore: self.moore,
            outer_totalistic: self.outer_totalistic,
            policy: self.boundary.policy(),
            connectivity: self.connectivity,
            pages: Seq::new(self.universe@.len(), |k: int| self.universe@[k]@.cells),
            seed: self.initial_configuration@,
        }
    }
}

impl TCA2D {
    /// The parts of the universe fit together: the compass is the table of
    /// its neighbourhood, the boundary and every page have its dimensions,
    /// and every page is traced with its adjacency.
    pub closed spec fn consistent(&self) -> bool {
        &&& self.compass@ == compass_table(self.moore)
        &&& self.boundary.width() == self.width
        &&& self.boundary.height() == self.height
        &&& forall|k: int|
            0 <= k < self.universe@.len() ==> (#[trigger] self.universe@[k])@.width == self.width
                && self.universe@[k]@.height == self.height && self.universe@[k]@.connectivity
                == self.connectivity
    }

    /// The universe keeps its pages as it should, and its parts fit together.
    pub open spec fn wf(&self) -> bool {
        self@.wf() && self.consistent()
    }

    /// A universe of `depth` pages. The first page is the initial
    /// configuration, every later page is blank, and all pages are traced
    /// with the adjacency of the initial configuration.
    pub fn new(
        rule: usize,
        width: usize,
        height: usize,
        depth: usize,
        outer_totalistic: bool,
        moore: bool,
        boundary_type: BoundaryType,
        initial_configuration: Grid,
    ) -> (r: Result<TCA2D, AutomatonError>)
        requires
            initial_configuration.wf(),
        ensures
            initial_configuration@.width != width || initial_configuration@.height != height ==> r
                == Err::<TCA2D, AutomatonError>(AutomatonError::DimensionMismatch),
            initial_configuration@.width == width && initial_configuration@.height == height
                && depth == 0 ==> r == Err::<TCA2D, AutomatonError>(AutomatonError::NoPages),
            initial_configuration@.width == width && initial_configuration@.height == height
                && depth > 0 ==> r is Ok,
            r matches Ok(u) ==> u.wf() && u@ == (UniverseView {
                rule,
                width: width as nat,
                height: height as nat,
                depth: depth as nat,
                moore,
                outer_totalistic,
                policy: boundary_type,
                connectivity: initial_configuration@.connectivity,
                pages: Seq::new(
                    depth as nat,
                    |k: int|
                        if k == 0 {
                            initial_configuration@.cells
                        } else {
                            Seq::new((width * height) as nat, |i: int| 0usize)
                        },
                ),
                seed: initial_configuration@.cells,
            }),
    {
        if initial_configuration.width() != width || initial_configuration.height() != height {
            return Err(AutomatonError::DimensionMismatch);
        }
        if depth == 0 {
            return Err(AutomatonError::NoPages);
        }
        proof {
            initial_configuration.lemma_countable();
        }
        let seed: Vec<usize> = initial_configuration.get_grid().clone();
        assert(seed@ =~= initial_configuration@.cells);
        let ghost first = initial_configuration@.cells;
        let connectivity = initial_configuration.connectivity();
        let mut universe: Vec<Grid> = Vec::new();
        universe.push(initial_configuration);
        let mut i: usize = 1;
        while i < depth
            invariant
                1 <= i <= depth,
                width * height <= usize::MAX,
                universe@.len() == i,
                universe@[0]@.cells == first,
                forall|k: int|
                    0 <= k < i ==> (#[trigger] universe@[k])@.width == width && universe@[k]@.height
                        == height && universe@[k]@.connectivity == connectivity,
                forall|k: int|
                    1 <= k < i ==> (#[trigger] universe@[k])@.cells == Seq::new(
                        (width * height) as nat,
                        |i: int| 0usize,
                    ),
            decreases depth - i,
        {
            let mut page: Grid = Grid::new(width, height);
            page.set_connectivity(connectivity);
            universe.push(page);
            i = i + 1;
        }
        let boundary = Boundary::new(width, height, boundary_type);
        let compass = Compass::new(!moore);
        let u = TCA2D {
            rule,
            width,
            height,
            depth,
            moore,
            outer_totalistic,
            compass,
            boundary,
            connectivity,
            universe,
            initial_configuration: seed,
        };
        assert(u@.pages =~= Seq::new(
            depth as nat,
            |k: int|
                if k == 0 {
                    first
                } else {
                    Seq::new((width * height) as nat, |i: int| 0usize)
                },
        ));
        Ok(u)
    }

    /// The rule code.
    pub fn rule(&self) -> (rule: usize)
        ensures
            rule == self@.rule,
    {
        self.rule
    }

    /// The number of columns.
    pub fn width(&self) -> (width: usize)
        ensures
            width == self@.width,
    {
        self.width
    }

    /// The number of rows.
    pub fn height(&self) -> (height: usize)
        ensures
            height == self@.height,
    {
        self.height
    }

    /// The number of pages.
    pub fn depth(&self) -> (depth: usize)
        ensures
            depth == self@.depth,
    {
        self.depth
    }

    /// Whether the diagonal neighbours count.
    pub fn moore(&self) -> (moore: bool)
        ensures
            moore == self@.moore,
    {
        self.moore
    }

    /// Whether the rule tells the cell from its neighbours.
    pub fn outer_totalistic(&self) -> (outer_totalistic: bool)
        ensures
            outer_totalistic == self@.outer_totalistic,
    {
        self.outer_totalistic
    }

    /// The state of the cell in row `row_index` and column `column_index`
    /// of page `page_index`.
    pub fn get_value(&self, page_index: usize, row_index: usize, column_index: usize) -> (value:
        usize)
        requires
            self.wf(),
            page_index < self@.depth,
            row_index < self@.height,
            column_index < self@.width,
        ensures
            value == self@.at(page_index as int, row_index as int, column_index as int),
    {
        assert(self@.pages[page_index as int].len() == self@.width * self@.height);
        assert(self.universe@[page_index as int]@.width == self.width);
        self.universe[page_index].get_value(row_index, column_index)
    }

    /// Gives the cell in row `row_index` and column `column_index` of page
    /// `page_index` the state `value`. Everything else stays as it is.
    pub fn set_value(
        &mut self,
        page_index: usize,
        row_index: usize,
        column_index: usize,
        value: usize,
    )
        requires
            old(self).wf(),
            page_index < old(self)@.depth,
            row_index < old(self)@.height,
            column_index < old(self)@.width,
        ensures
            final(self).wf(),
            final(self)@ == old(self)@.with_pages(
                old(self)@.pages.update(
                    page_index as int,
                    old(self)@.pages[page_index as int].update(
                        row_index * old(self)@.width + column_index,
                        value,
                    ),
                ),
            ),
    {
        assert(self@.pages[page_index as int].len() == self@.width * self@.height);
        assert(self.universe@[page_index as int]@.width == self.width);
        self.universe[page_index].set_value(row_index, column_index, value);
        assert(self@.pages =~= old(self)@.pages.update(
            page_index as int,
            old(self)@.pages[page_index as int].update(
                row_index * old(self)@.width + column_index,
                value,
            ),
        ));
    }

    /// The states around and at a cell of the page before `page_index`, in
    /// the order of the compass table.
    fn get_radius_at_index(&self, page_index: usize, row_index: usize, column_index: usize) -> (r:
        Result<Vec<usize>, AutomatonError>)
        requires
            self.wf(),
            1 <= page_index <= self@.depth,
            row_index < self@.height,
            column_index < self@.width,
        ensures
            self@.policy == BoundaryType::Null <==> r is Ok,
            r matches Ok(radius) ==> radius@ == self@.radius_at(
                self@.pages[page_index - 1],
                row_index as int,
                column_index as int,
            ),
            r matches Err(e) ==> e == AutomatonError::UnsupportedBoundary,
    {
        match self.boundary.get_policy() {
            BoundaryType::Null => Ok(
                self.get_null_radius_at_index(page_index, row_index, column_index),
            ),
            _ => Err(AutomatonError::UnsupportedBoundary),
        }
    }

    /// The radius under the null policy: a neighbour off the lattice counts
    /// as 0, and so does one in a direction that is not active.
    fn get_null_radius_at_index(
        &self,
        page_index: usize,
        row_index: usize,
        column_index: usize,
    ) -> (radius: Vec<usize>)
        requires
            self.wf(),
            self@.policy == BoundaryType::Null,
            1 <= page_index <= self@.depth,
            row_index < self@.height,
            column_index < self@.width,
        ensures
            radius@ == self@.radius_at(
                self@.pages[page_index - 1],
                row_index as int,
                column_index as int,
            ),
    {
        let ghost page = self@.pages[page_index - 1];
        let mut radius: Vec<usize> = vec![0; 9];
        let directions = self.compass.directions();
        proof {
            lemma_compass_table_shape(self.moore);
        }
        let mut index: usize = 0;
        while index < directions.len()
            invariant
                self.wf(),
                self@.policy == BoundaryType::Null,
                1 <= page_index <= self@.depth,
                row_index < self@.height,
                column_index < self@.width,
                page == self@.pages[page_index - 1],
                directions@ == compass_table(self.moore),
                directions@.len() == 9,
                radius@.len() == 9,
                index <= 9,
                forall|k: int|
                    0 <= k < index ==> #[trigger] radius@[k] == state_toward(
                        page,
                        self.width as int,
                        self.height as int,
                        self.moore,
                        row_index as int,
                        column_index as int,
                        k,
                    ),
            decreases 9 - index,
        {
            let direction = &directions[index];
            assert(*direction == direction_at(index as int, self.moore));
            let mut direction_row_index: Option<usize> = None;
            let mut direction_column_index: Option<usize> = None;
            if direction.active {
                proof {
                    lemma_resolve_null(row_index, direction.y, self.height);
                    lemma_resolve_null(column_index, direction.x, self.width);
                }
                direction_row_index =
                match self.boundary.get_new_row_index(row_index, direction) {
                    Ok(resolved) => resolved,
                    Err(_) => None,
                };
                direction_column_index =
                match self.boundary.get_new_column_index(column_index, direction) {
                    Ok(resolved) => resolved,
                    Err(_) => None,
                };
            }
            let value: usize = match (direction_row_index, direction_column_index) {
                (Some(row), Some(column)) => self.get_value(page_index - 1, row, column),
                _ => 0,
            };
            radius.set(index, value);
            index = index + 1;
        }
        assert(radius@ =~= self@.radius_at(page, row_index as int, column_index as int));
        radius
    }

    /// The state that an outer-totalistic rule gives a cell of state `a`
    /// whose eight neighbours add up to `n`: bit `2 * n + a` of `code`.
    pub fn rule_lookup_outer_totalistic(a: usize, n: usize, code: usize) -> (state: usize)
        ensures
            state == rule_bit(code, 2 * n + a),
            state == 0 || state == 1,
    {
        match n.checked_mul(2) {
            Some(twice) => match twice.checked_add(a) {
                Some(shift) => read_rule_bit(code, shift),
                None => 0,
            },
            None => 0,
        }
    }

    /// The state that a totalistic rule gives a cell whose nine states add
    /// up to `n`: bit `n` of `code`.
    pub fn rule_lookup_totalistic(n: usize, code: usize) -> (state: usize)
        ensures
            state == rule_bit(code, n as int),
            state == 0 || state == 1,
    {
        read_rule_bit(code, n)
    }

    /// The page that follows page `page_index - 1`. The universe is left as
    /// it is.
    pub fn get_next_page(&self, page_index: usize) -> (r: Result<Grid, AutomatonError>)
        requires
            self.wf(),
            1 <= page_index <= self@.depth,
        ensures
            self@.policy == BoundaryType::Null <==> r is Ok,
            r matches Ok(page) ==> page.wf() && page@ == (GridView {
                width: self@.width,
                height: self@.height,
                cells: self@.next_of(self@.pages[page_index - 1]),
                connectivity: self@.connectivity,
            }),
            r matches Err(e) ==> e == AutomatonError::UnsupportedBoundary,
    {
        match self.boundary.get_policy() {
            BoundaryType::Null => {},
            _ => {
                return Err(AutomatonError::UnsupportedBoundary);
            },
        }
        let ghost source = self@.pages[page_index - 1];
        let ghost target = self@.next_of(source);
        proof {
            assert(self.universe@[0]@.cells == self@.pages[0]);
            self.universe[0].lemma_countable();
        }
        let mut next_page: Grid = Grid::new(self.width, self.height);
        next_page.set_connectivity(self.connectivity);
        let mut row_index: usize = 0;
        while row_index < self.height
            invariant
                self.wf(),
                self@.policy == BoundaryType::Null,
                1 <= page_index <= self@.depth,
                source == self@.pages[page_index - 1],
                target == self@.next_of(source),
                next_page.wf(),
                next_page@.width == self.width,
                next_page@.height == self.height,
                next_page@.connectivity == self.connectivity,
                row_index <= self.height,
                forall|i: int|
                    0 <= i < row_index * self.width ==> #[trigger] next_page@.cells[i]
                        == target[i],
            decreases self.height - row_index,
        {
            let mut column_index: usize = 0;
            while column_index < self.width
                invariant
                    self.wf(),
                    self@.policy == BoundaryType::Null,
                    1 <= page_index <= self@.depth,
                    source == self@.pages[page_index - 1],
                    target == self@.next_of(source),
                    next_page.wf(),
                    next_page@.width == self.width,
                    next_page@.height == self.height,
                    next_page@.connectivity == self.connectivity,
                    row_index < self.height,
                    column_index <= self.width,
                    forall|i: int|
                        0 <= i < row_index * self.width + column_index
                            ==> #[trigger] next_page@.cells[i] == target[i],
                decreases self.width - column_index,
            {
                let radius: Vec<usize> =
                match self.get_radius_at_index(page_index, row_index, column_index) {
                    Ok(radius) => radius,
                    Err(e) => {
                        return Err(e);
                    },
                };
                let n: usize = sum_states(&radius);
                let cell: usize = if self.outer_totalistic {
                    let a: usize = radius[4];
                    proof {
                        lemma_total_bounds(radius@, 4);
                    }
                    TCA2D::rule_lookup_outer_totalistic(a, n - a, self.rule)
                } else {
                    TCA2D::rule_lookup_totalistic(n, self.rule)
                };
                proof {
                    lemma_cell_index(
                        row_index as int,
                        column_index as int,
                        self.width as int,
                        self.height as int,
                    );
                    assert(cell == next_state(self.rule, self.outer_totalistic, radius@));
                    assert(target[row_index * self.width + column_index] == cell);
                }
                next_page.set_value(row_index, column_index, cell);
                column_index = column_index + 1;
            }
            assert(row_index * self.width + self.width == (row_index + 1) * self.width)
                by (nonlinear_arith);
            row_index = row_index + 1;
        }
        assert(self.height * self.width == self.width * self.height) by (nonlinear_arith);
        assert(next_page@.cells =~= target);
        Ok(next_page)
    }

    /// Computes the page that follows page `page_index - 1` and writes it,
    /// cell by cell, over page `page_index`. The first page is never written.
    pub fn increase_generation(&mut self, page_index: usize) -> (r: Result<(), AutomatonError>)
        requires
            old(self).wf(),
            1 <= page_index < old(self)@.depth,
        ensures
            final(self).wf(),
            final(self)@.pages[0] == old(self)@.pages[0],
            old(self)@.policy == BoundaryType::Null <==> r is Ok,
            r is Ok ==> final(self)@ == old(self)@.with_pages(
                old(self)@.pages.update(
                    page_index as int,
                    old(self)@.next_of(old(self)@.pages[page_index - 1]),
                ),
            ),
            r matches Err(e) ==> e == AutomatonError::UnsupportedBoundary && final(self)@
                == old(self)@,
    {
        let next_generation: Grid = match self.get_next_page(page_index) {
            Ok(page) => page,
            Err(e) => {
                return Err(e);
            },
        };
        let ghost before = self@;
        let ghost target = next_generation@.cells;
        let mut row_index: usize = 0;
        while row_index < self.height
            invariant
                self.wf(),
                1 <= page_index < before.depth,
                next_generation.wf(),
                next_generation@.width == self.width,
                next_generation@.height == self.height,
                next_generation@.cells == target,
                self@ == before.with_pages(self@.pages),
                row_index <= self.height,
                forall|k: int|
                    0 <= k < before.depth && k != page_index ==> #[trigger] self@.pages[k]
                        == before.pages[k],
                forall|i: int|
                    0 <= i < row_index * self.width ==> #[trigger] self@.pages[page_index as int][i]
                        == target[i],
            decreases self.height - row_index,
        {
            let mut column_index: usize = 0;
            while column_index < self.width
                invariant
                    self.wf(),
                    1 <= page_index < before.depth,
                    next_generation.wf(),
                    next_generation@.width == self.width,
                    next_generation@.height == self.height,
                    next_generation@.cells == target,
                    self@ == before.with_pages(self@.pages),
                    row_index < self.height,
                    column_index <= self.width,
                    forall|k: int|
                        0 <= k < before.depth && k != page_index ==> #[trigger] self@.pages[k]
                            == before.pages[k],
                    forall|i: int|
                        0 <= i < row_index * self.width + column_index
                            ==> #[trigger] self@.pages[page_index as int][i] == target[i],
                decreases self.width - column_index,
            {
                proof {
                    lemma_cell_index(
                        row_index as int,
                        column_index as int,
                        self.width as int,
                        self.height as int,
                    );
                }
                let value = next_generation.get_value(row_index, column_index);
                self.set_value(page_index, row_index, column_index, value);
                column_index = column_index + 1;
            }
            assert(row_index * self.width + self.width == (row_index + 1) * self.width)
                by (nonlinear_arith);
            row_index = row_index + 1;
        }
        proof {
            assert(self.height * self.width == self.width * self.height) by (nonlinear_arith);
            assert(self@.pages[page_index as int] =~= target);
            assert(self@.pages =~= before.pages.update(page_index as int, target));
        }
        Ok(())
    }

    /// Advances a universe that keeps no history: the page that follows the
    /// first page takes the place of the first page. The number of pages
    /// stays what it was.
    pub fn roll_generation(&mut self) -> (r: Result<(), AutomatonError>)
        requires
            old(self).wf(),
        ensures
            final(self).wf(),
            old(self)@.policy == BoundaryType::Null <==> r is Ok,
            r is Ok ==> final(self)@ == old(self)@.rolled_once(),
            r matches Err(e) ==> e == AutomatonError::UnsupportedBoundary && final(self)@
                == old(self)@,
            final(self)@.pages.len() == old(self)@.pages.len(),
    {
        let next_generation: Grid = match self.get_next_page(1) {
            Ok(page) => page,
            Err(e) => {
                return Err(e);
            },
        };
        self.universe.set(0, next_generation);
        assert(self@.pages =~= old(self)@.pages.update(0, old(self)@.next_of(old(self)@.pages[0])));
        Ok(())
    }

    /// Puts the pattern `subgrid`, `width` columns by `height` rows and
    /// taken row by row, on page `page_index` at row `row_index` and column
    /// `column_index`. A pattern that does not fit changes nothing.
    pub fn insert_at(
        &mut self,
        page_index: usize,
        row_index: usize,
        column_index: usize,
        width: usize,
        height: usize,
        subgrid: Vec<usize>,
    )
        requires
            old(self).wf(),
            page_index < old(self)@.depth,
            insertion_fits(
                old(self)@.width as int,
                old(self)@.height as int,
                row_index as int,
                column_index as int,
                width as int,
                height as int,
            ) ==> subgrid@.len() == width * height,
        ensures
            final(self).wf(),
            final(self)@ == old(self)@.with_pages(
                old(self)@.pages.update(
                    page_index as int,
                    inserted(
                        old(self)@.pages[page_index as int],
                        old(self)@.width as int,
                        old(self)@.height as int,
                        row_index as int,
                        column_index as int,
                        width as int,
                        height as int,
                        subgrid@,
                    ),
                ),
            ),
            column_index + width > old(self)@.width - 1 ==> final(self)@ == old(self)@,
    {
        let ghost before = self@;
        let ghost page = self@.pages[page_index as int];
        let fits_across: bool = self.width >= 1 && match width.checked_add(column_index) {
            Some(end) => end <= self.width - 1,
            None => false,
        };
        let fits_down: bool = match height.checked_add(row_index) {
            Some(end) => end <= self.height,
            None => false,
        };
        if fits_across && fits_down {
            proof {
                lemma_overwrite_all(
                    page,
                    self.width as int,
                    self.height as int,
                    row_index as int,
                    column_index as int,
                    width as int,
                    height as int,
                    subgrid@,
                );
                assert(self@.pages =~= before.pages.update(page_index as int, page));
            }
            let mut sub_row_index: usize = 0;
            while sub_row_index < height
                invariant
                    self.wf(),
                    page_index < before.depth,
                    before.wf(),
                    page == before.pages[page_index as int],
                    self.width == before.width,
                    self.height == before.height,
                    column_index + width <= self.width - 1,
                    row_index + height <= self.height,
                    subgrid@.len() == width * height,
                    sub_row_index <= height,
                    self@ == before.with_pages(
                        before.pages.update(
                            page_index as int,
                            overwritten(
                                page,
                                self.width as int,
                                row_index as int,
                                column_index as int,
                                width as int,
                                subgrid@,
                                sub_row_index * width,
                            ),
                        ),
                    ),
                decreases height - sub_row_index,
            {
                let mut sub_column_index: usize = 0;
                while sub_column_index < width
                    invariant
                        self.wf(),
                        page_index < before.depth,
                        before.wf(),
                        page == before.pages[page_index as int],
                        self.width == before.width,
                        self.height == before.height,
                        column_index + width <= self.width - 1,
                        row_index + height <= self.height,
                        subgrid@.len() == width * height,
                        sub_row_index < height,
                        sub_column_index <= width,
                        self@ == before.with_pages(
                            before.pages.update(
                                page_index as int,
                                overwritten(
                                    page,
                                    self.width as int,
                                    row_index as int,
                                    column_index as int,
                                    width as int,
                                    subgrid@,
                                    sub_row_index * width + sub_column_index,
                                ),
                            ),
                        ),
                    decreases width - sub_column_index,
                {
                    proof {
                        lemma_cell_index(
                            sub_row_index as int,
                            sub_column_index as int,
                            width as int,
                            height as int,
                        );
                        lemma_overwrite_next(
                            page,
                            self.width as int,
                            self.height as int,
                            row_index as int,
                            column_index as int,
                            width as int,
                            height as int,
                            subgrid@,
                            sub_row_index as int,
                            sub_column_index as int,
                        );
                        assert(subgrid@.len() == subgrid.len());
                    }
                    let value = subgrid[sub_row_index * width + sub_column_index];
                    self.set_value(
                        page_index,
                        row_index + sub_row_index,
                        column_index + sub_column_index,
                        value,
                    );
                    assert(self@.pages =~= before.pages.update(
                        page_index as int,
                        overwritten(
                            page,
                            self.width as int,
                            row_index as int,
                            column_index as int,
                            width as int,
                            subgrid@,
                            sub_row_index * width + sub_column_index + 1,
                        ),
                    ));
                    sub_column_index = sub_column_index + 1;
                }
                assert(sub_row_index * width + width == (sub_row_index + 1) * width)
                    by (nonlinear_arith);
                sub_row_index = sub_row_index + 1;
            }
        } else {
            assert(self@.pages =~= before.pages.update(page_index as int, page));
        }
    }

    /// Puts a pattern on a page, as `insert_at` does.
    pub fn insert_page(
        &mut self,
        page_index: usize,
        row_index: usize,
        column_index: usize,
        width: usize,
        height: usize,
        subgrid: Vec<usize>,
    )
        requires
            old(self).wf(),
            page_index < old(self)@.depth,
            insertion_fits(
                old(self)@.width as int,
                old(self)@.height as int,
                row_index as int,
                column_index as int,
                width as int,
                height as int,
            ) ==> subgrid@.len() == width * height,
        ensures
            final(self).wf(),
            final(self)@ == old(self)@.with_pages(
                old(self)@.pages.update(
                    page_index as int,
                    inserted(
                        old(self)@.pages[page_index as int],
                        old(self)@.width as int,
                        old(self)@.height as int,
                        row_index as int,
                        column_index as int,
                        width as int,
                        height as int,
                        subgrid@,
                    ),
                ),
            ),
            column_index + width > old(self)@.width - 1 ==> final(self)@ == old(self)@,
    {
        self.insert_at(page_index, row_index, column_index, width, height, subgrid);
    }

    /// Computes every page after the first from the page before it. The
    /// first page stays as it is.
    pub fn generate(&mut self) -> (r: Result<(), AutomatonError>)
        requires
            old(self).wf(),
        ensures
            final(self).wf(),
            final(self)@.pages[0] == old(self)@.pages[0],
            r is Ok <==> old(self)@.policy == BoundaryType::Null || old(self)@.depth == 1,
            r is Ok ==> final(self)@ == old(self)@.with_pages(
                Seq::new(
                    old(self)@.depth,
                    |k: int| old(self)@.page_after(old(self)@.pages[0], k as nat),
                ),
            ),
            r matches Err(e) ==> e == AutomatonError::UnsupportedBoundary && final(self)@
                == old(self)@,
    {
        let ghost before = self@;
        let mut page_index: usize = 1;
        while page_index < self.depth
            invariant
                self.wf(),
                1 <= page_index <= self.depth,
                self.depth == before.depth,
                before == old(self)@,
                before.wf(),
                self@ == before.with_pages(self@.pages),
                page_index > 1 ==> before.policy == BoundaryType::Null,
                page_index == 1 ==> self@ == before,
                forall|k: int|
                    0 <= k < page_index ==> #[trigger] self@.pages[k] == before.page_after(
                        before.pages[0],
                        k as nat,
                    ),
            decreases self.depth - page_index,
        {
            let ghost previous = self@;
            match self.increase_generation(page_index) {
                Ok(()) => {},
                Err(e) => {
                    assert(previous.policy == before.policy);
                    assert(self@ == previous);
                    return Err(e);
                },
            }
            page_index = page_index + 1;
        }
        assert(self@.pages =~= Seq::new(
            before.depth,
            |k: int| before.page_after(before.pages[0], k as nat),
        ));
        Ok(())
    }

    /// Puts the initial configuration back on the first page. The later
    /// pages are left as they are.
    pub fn reset(&mut self)
        requires
            old(self).wf(),
        ensures
            final(self).wf(),
            final(self)@ == old(self)@.with_pages(old(self)@.pages.update(0, old(self)@.seed)),
    {
        let seed: Vec<usize> = self.initial_configuration.clone();
        assert(seed@ =~= self.initial_configuration@);
        assert(self@.pages[0].len() == self@.width * self@.height);
        self.universe[0].replace_cells(seed);
        assert(self@.pages =~= old(self)@.pages.update(0, old(self)@.seed));
    }

    /// Page `page_index` as a lattice.
    pub fn page(&self, page_index: usize) -> (page: &Grid)
        requires
            self.wf(),
            page_index < self@.depth,
        ensures
            page.wf(),
            page@ == (GridView {
                width: self@.width,
                height: self@.height,
                cells: self@.pages[page_index as int],
                connectivity: self@.connectivity,
            }),
    {
        assert(self@.pages[page_index as int].len() == self@.width * self@.height);
        assert(self.universe@[page_index as int]@.width == self.width);
        &self.universe[page_index]
    }

    /// Page `page_index` as rows of numerals.
    pub fn get_page(&self, page_index: usize) -> (text: String)
        requires
            self.wf(),
            page_index < self@.depth,
        ensures
            text@ == page_text(
                self@.pages[page_index as int],
                self@.width as int,
                self@.pages[page_index as int].len() as int,
            ),
    {
        let cells = self.universe[page_index].get_grid();
        proof {
            assert(cells@ == self@.pages[page_index as int]);
            if cells@.len() > 0 {
                lemma_index_cell(0, self.width as int, self.height as int);
            }
        }
        write_page(cells, self.width)
    }

    /// The universe as text, page by page.
    pub fn to_string(&self) -> (text: String)
        requires
            self.wf(),
        ensures
            text@ == universe_text(self@.pages, self@.width as int, self@.pages.len() as int),
    {
        let mut universe_str: String = String::new();
        let mut page_index: usize = 0;
        while page_index < self.universe.len()
            invariant
                self.wf(),
                page_index <= self.universe@.len(),
                self.universe@.len() == self@.pages.len(),
                universe_str@ == universe_text(self@.pages, self@.width as int, page_index as int),
            decreases self.universe.len() - page_index,
        {
            let ghost before = universe_str@;
            universe_str.append("page : ");
            push_decimal(&mut universe_str, page_index);
            universe_str.append("\n");
            let page = self.get_page(page_index);
            universe_str.append(page.as_str());
            universe_str.append("\n");
            assert(universe_str@ =~= universe_text(
                self@.pages,
                self@.width as int,
                page_index + 1,
            ));
            page_index = page_index + 1;
        }
        universe_str
    }
}

} // verus!
