//! Labelling of the connected regions of a lattice.

use vstd::prelude::*;
use std::collections::HashMap;
use crate::disjoint_sets::{find_set, forest_of, into_labels, new_sets, union_sets};
use crate::grid::{lemma_cell_index, Connectivity, Grid};
use crate::numbering::{
    count_new, is_greatest, lemma_number_new, lemma_number_seen, lemma_number_zero, number_at,
    number_known, numbers_known, renumbered,
};
use crate::region_laws::{lemma_label_zero_is_background, lemma_labels_tell_components_apart};
use crate::regions::{
    connected, is_foreground, label_behind, labels_behind, lemma_scan, lemma_unite_all_step,
    lemma_unite_all_wf, region_labels, scan, unite_all, visit,
};

verus! {

broadcast use vstd::std_specs::hash::group_hash_axioms;

/// Replaces every label by its number: 0 stays 0, and the other labels are
/// numbered from 1 in the order in which they first occur.
pub fn number_consecutively(labels: &mut Vec<usize>)
    ensures
        final(labels)@ == renumbered(old(labels)@),
{
    let ghost given = labels@;
    let count = labels.len();
    let mut consecutive_labels: HashMap<usize, usize> = HashMap::new();
    let mut label_counter: usize = 0;
    let mut index: usize = 0;
    while index < count
        invariant
            index <= count,
            count == given.len(),
            labels@ == given,
            label_counter == count_new(given, index as int),
            numbers_known(consecutive_labels@, given, index as int),
        decreases count - index,
    {
        let cell = labels[index];
        if cell != 0 {
            if !consecutive_labels.contains_key(&cell) {
                proof {
                    lemma_number_new(consecutive_labels@, given, index as int);
                }
                consecutive_labels.insert(cell, label_counter + 1);
                label_counter = label_counter + 1;
            } else {
                proof {
                    lemma_number_seen(consecutive_labels@, given, index as int);
                }
            }
        } else {
            proof {
                lemma_number_zero(consecutive_labels@, given, index as int);
            }
            consecutive_labels.insert(cell, 0);
        }
        index = index + 1;
    }
    let mut index: usize = 0;
    while index < count
        invariant
            index <= count,
            count == given.len(),
            labels@.len() == count,
            numbers_known(consecutive_labels@, given, count as int),
            forall|j: int| 0 <= j < index ==> labels@[j] == number_at(given, j),
            forall|j: int| index <= j < count ==> labels@[j] == given[j],
        decreases count - index,
    {
        let cell = labels[index];
        assert(number_known(consecutive_labels@, given, index as int));
        let number = match consecutive_labels.get(&cell) {
            Some(number) => *number,
            None => 0,
        };
        labels.set(index, number);
        index = index + 1;
    }
    assert(labels@ =~= renumbered(given));
}

impl Grid {
    /// Labels the regions of the lattice: for each cell, in row-major
    /// order, the label of its region.
    ///
    /// The lattice is scanned once into disjoint sets, which hold one
    /// element for the background and one for each cell. Cells whose state
    /// is not exactly 1 are put in the set of the background. With
    /// `make_consecutive_labels` the labels are numbered from 1 in the
    /// order of their first occurrence; without it the label of a region is
    /// one more than the index of the cell that represents it.
    ///
    /// Label 0 is the label of the cells that are not foreground and of no
    /// other cell, and two foreground cells get the same label exactly when
    /// a path of foreground cells leads from one to the other. The scan
    /// needs one element more than the lattice has cells, so the cells
    /// must be fewer than the greatest machine integer.
    pub fn get_connected_components(&self, make_consecutive_labels: bool) -> (labels: Vec<usize>)
        requires
            self.wf(),
            self@.cells.len() < usize::MAX,
        ensures
            labels@ == region_labels(self@, make_consecutive_labels),
            labels@.len() == self@.cells.len(),
            forall|a: int|
                0 <= a < labels@.len() ==> ((#[trigger] labels@[a] == 0) <==> self@.cells[a] != 1),
            forall|a: int, b: int|
                is_foreground(self@, a) && is_foreground(self@, b) ==> ((#[trigger] labels@[a]
                    == #[trigger] labels@[b]) <==> connected(self@, a, b)),
    {
        let width = self.width();
        let height = self.height();
        let ghost g = self@;
        let mut uf = new_sets(width * height + 1);
        let eight_connected: bool = match self.connectivity() {
            Connectivity::EightConnected => true,
            _ => false,
        };
        let mut row_index: usize = 0;
        while row_index < height
            invariant
                self.wf(),
                g == self@,
                width == g.width,
                height == g.height,
                g.cells.len() < usize::MAX,
                eight_connected == g.eight(),
                row_index <= height,
                forest_of(uf) == scan(g, (row_index * width) as nat),
            decreases height - row_index,
        {
            let mut cell_index: usize = 0;
            while cell_index < width
                invariant
                    self.wf(),
                    g == self@,
                    width == g.width,
                    height == g.height,
                    g.cells.len() < usize::MAX,
                    eight_connected == g.eight(),
                    row_index < height,
                    cell_index <= width,
                    forest_of(uf) == scan(g, (row_index * width + cell_index) as nat),
                decreases width - cell_index,
            {
                proof {
                    lemma_cell_index(
                        row_index as int,
                        cell_index as int,
                        width as int,
                        height as int,
                    );
                    lemma_scan(g, (row_index * width + cell_index) as nat);
                }
                let index = row_index * width + cell_index;
                let cell: usize = self.get_value(row_index, cell_index);
                let ghost before = forest_of(uf);
                if cell == 1 {
                    let mut labels: Vec<usize> = Vec::new();
                    if row_index != 0 {
                        proof {
                            lemma_cell_index(
                                row_index - 1,
                                cell_index as int,
                                width as int,
                                height as int,
                            );
                            assert((row_index - 1) * width + cell_index == index - width)
                                by (nonlinear_arith)
                                requires
                                    index == row_index * width + cell_index,
                            ;
                        }
                        let north_cell: usize = self.get_value(row_index - 1, cell_index);
                        if north_cell == 1 {
                            let label: usize = find_set(
                                &uf,
                                (row_index - 1) * width + cell_index + 1,
                            );
                            labels.push(label);
                        }
                    }
                    assert(labels@ =~= label_behind(before, g, index - width, index >= width));
                    if cell_index != 0 {
                        let west_cell: usize = self.get_value(row_index, cell_index - 1);
                        if west_cell == 1 {
                            let label: usize = find_set(
                                &uf,
                                row_index * width + (cell_index - 1) + 1,
                            );
                            labels.push(label);
                        }
                    }
                    assert(labels@ =~= label_behind(before, g, index - width, index >= width)
                        + label_behind(before, g, index - 1, index % width != 0));
                    if eight_connected {
                        if row_index != 0 && cell_index != 0 {
                            proof {
                                lemma_cell_index(
                                    row_index - 1,
                                    cell_index - 1,
                                    width as int,
                                    height as int,
                                );
                                assert((row_index - 1) * width + (cell_index - 1) == index - width
                                    - 1) by (nonlinear_arith)
                                    requires
                                        index == row_index * width + cell_index,
                                ;
                            }
                            let north_west_cell: usize = self.get_value(
                                row_index - 1,
                                cell_index - 1,
                            );
                            if north_west_cell == 1 {
                                let label: usize = find_set(
                                    &uf,
                                    (row_index - 1) * width + (cell_index - 1) + 1,
                                );
                                labels.push(label);
                            }
                        }
                    }
                    assert(labels@ =~= label_behind(before, g, index - width, index >= width)
                        + label_behind(before, g, index - 1, index % width != 0)
                        + label_behind(
                        before,
                        g,
                        index - width - 1,
                        g.eight() && index >= width && index % width != 0,
                    ));
                    if eight_connected {
                        if row_index != 0 && cell_index < width - 1 {
                            proof {
                                lemma_cell_index(
                                    row_index - 1,
                                    cell_index + 1,
                                    width as int,
                                    height as int,
                                );
                                assert((row_index - 1) * width + (cell_index + 1) == index - width
                                    + 1) by (nonlinear_arith)
                                    requires
                                        index == row_index * width + cell_index,
                                ;
                            }
                            let north_east_cell: usize = self.get_value(
                                row_index - 1,
                                cell_index + 1,
                            );
                            if north_east_cell == 1 {
                                let label: usize = find_set(
                                    &uf,
                                    (row_index - 1) * width + (cell_index + 1) + 1,
                                );
                                labels.push(label);
                            }
                        }
                    }
                    assert(labels@ =~= labels_behind(before, g, index as int));
                    let mut next: usize = 0;
                    while next < labels.len()
                        invariant
                            next <= labels.len(),
                            index < g.cells.len(),
                            before.wf(),
                            before.reps.len() == g.cells.len() + 1,
                            g.cells.len() < usize::MAX,
                            forall|t: int|
                                0 <= t < labels@.len() ==> #[trigger] labels@[t] <= g.cells.len(),
                            forest_of(uf) == unite_all(
                                before,
                                index + 1,
                                labels@.take(next as int),
                            ),
                        decreases labels.len() - next,
                    {
                        proof {
                            lemma_unite_all_wf(before, index + 1, labels@.take(next as int));
                            lemma_unite_all_step(before, index + 1, labels@, next as int);
                        }
                        union_sets(&mut uf, index + 1, labels[next]);
                        next = next + 1;
                    }
                    assert(labels@.take(labels@.len() as int) =~= labels@);
                } else {
                    union_sets(&mut uf, 0, index + 1);
                }
                assert(forest_of(uf) == visit(before, g, index as int));
                cell_index = cell_index + 1;
            }
            assert(row_index * width + width == (row_index + 1) * width) by (nonlinear_arith);
            row_index = row_index + 1;
        }
        assert(height * width == g.cells.len()) by (nonlinear_arith)
            requires
                g.cells.len() == g.width * g.height,
                width == g.width,
                height == g.height,
        ;
        proof {
            lemma_scan(g, g.cells.len());
        }
        let mut universe_labelled: Vec<usize> = into_labels(uf);
        universe_labelled.remove(0);
        if make_consecutive_labels {
            number_consecutively(&mut universe_labelled);
        }
        proof {
            assert forall|a: int| 0 <= a < universe_labelled@.len() implies ((
            #[trigger] universe_labelled@[a] == 0) <==> g.cells[a] != 1) by {
                lemma_label_zero_is_background(g, make_consecutive_labels, a);
            }
            assert forall|a: int, b: int| is_foreground(g, a) && is_foreground(g, b) implies ((
            #[trigger] universe_labelled@[a] == #[trigger] universe_labelled@[b]) <==> connected(
                g,
                a,
                b,
            )) by {
                lemma_labels_tell_components_apart(g, make_consecutive_labels, a, b);
            }
        }
        universe_labelled
    }

    /// A lattice of the same dimensions whose cells are the consecutive
    /// region labels of this one.
    pub fn get_connected_components_grid(&self) -> (labelled: Grid)
        requires
            self.wf(),
            self@.cells.len() < usize::MAX,
        ensures
            labelled.wf(),
            labelled@ == self@.with_cells(region_labels(self@, true)),
    {
        let make_consecutive_labels: bool = true;
        let labels = self.get_connected_components(make_consecutive_labels);
        self.with_cells(labels)
    }

    /// Replaces every cell by the consecutive label of its region.
    pub fn label_connected_components(&mut self)
        requires
            old(self).wf(),
            old(self)@.cells.len() < usize::MAX,
        ensures
            final(self).wf(),
            final(self)@ == old(self)@.with_cells(region_labels(old(self)@, true)),
    {
        let make_consecutive_labels: bool = true;
        let labels = self.get_connected_components(make_consecutive_labels);
        self.replace_cells(labels);
    }

    /// The greatest cell state; on a lattice of consecutive region labels,
    /// the number of labels other than 0.
    pub fn get_number_of_components(&self) -> (count: usize)
        ensures
            is_greatest(self@.cells, count),
    {
        let cells = self.get_grid();
        let mut max: usize = 0;
        let mut index: usize = 0;
        while index < cells.len()
            invariant
                index <= cells.len(),
                is_greatest(cells@.take(index as int), max),
            decreases cells.len() - index,
        {
            let cell = cells[index];
            let ghost before = cells@.take(index as int);
            let ghost after = cells@.take(index + 1);
            proof {
                assert forall|i: int| 0 <= i < before.len() implies before[i] == after[i] by {
                }
                assert(after[index as int] == cell);
            }
            if cell > max {
                max = cell;
            } else {
                proof {
                    if max != 0 {
                        let i = choose|i: int| 0 <= i < before.len() && #[trigger] before[i] == max;
                        assert(after[i] == max);
                    }
                }
            }
            index = index + 1;
        }
        assert(cells@.take(cells@.len() as int) =~= cells@);
        max
    }
}

} // verus!
