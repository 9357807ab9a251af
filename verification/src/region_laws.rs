//! What the labels of a lattice tell about its regions.

use vstd::prelude::*;
use crate::grid::{lemma_cell_index, Connectivity, GridView};
use crate::numbering::{
    lemma_numbers_ignore_representatives, lemma_numbers_tell_apart, renumbered, same_grouping,
};
use crate::regions::{
    behind, connected, is_chain, is_foreground, joined, lemma_chain_same_label,
    lemma_joined_is_connected, lemma_joined_link, lemma_joined_sym, lemma_joined_trans,
    lemma_raw_labels, lemma_scan, linked, raw_labels, region_labels, rep_of, scan, ties,
};

verus! {

/// The labels have one label for each cell.
pub proof fn lemma_one_label_each(g: GridView, consecutive: bool)
    requires
        g.wf(),
        g.cells.len() < usize::MAX,
    ensures
        region_labels(g, consecutive).len() == g.cells.len(),
{
    lemma_raw_labels(g);
}

/// Label 0 is the label of the background and of the background only:
/// every cell that is not foreground carries it, and no foreground cell
/// does, whether the labels are made consecutive or not.
pub proof fn lemma_label_zero_is_background(g: GridView, consecutive: bool, a: int)
    requires
        g.wf(),
        g.cells.len() < usize::MAX,
        0 <= a < g.cells.len(),
    ensures
        region_labels(g, consecutive)[a] == 0 <==> g.cells[a] != 1,
{
    let f = scan(g, g.cells.len());
    lemma_scan(g, g.cells.len());
    lemma_raw_labels(g);
    assert(raw_labels(g)[a] == rep_of(f, a));
    if g.cells[a] == 1 {
        assert(is_foreground(g, a));
        assert(rep_of(f, a) >= 1);
    } else {
        assert(rep_of(f, a) == 0);
    }
    lemma_numbers_tell_apart(raw_labels(g), a, a);
}

/// Two foreground cells carry the same label exactly when a path of
/// foreground cells leads from one to the other, whether the labels are
/// made consecutive or not.
pub proof fn lemma_labels_tell_components_apart(g: GridView, consecutive: bool, a: int, b: int)
    requires
        g.wf(),
        g.cells.len() < usize::MAX,
        is_foreground(g, a),
        is_foreground(g, b),
    ensures
        region_labels(g, consecutive)[a] == region_labels(g, consecutive)[b] <==> connected(
            g,
            a,
            b,
        ),
{
    let n = g.cells.len() as int;
    let f = scan(g, g.cells.len());
    lemma_scan(g, g.cells.len());
    lemma_raw_labels(g);
    assert(raw_labels(g)[a] == rep_of(f, a));
    assert(raw_labels(g)[b] == rep_of(f, b));
    lemma_numbers_tell_apart(raw_labels(g), a, b);
    lemma_joined_is_connected(g, a, b);
    if joined(g, n, a, b) {
        let chain = choose|chain: Seq<int>|
            #[trigger] is_chain(g, n, chain) && chain[0] == a && chain[chain.len() - 1] == b;
        lemma_chain_same_label(f, g, n, chain);
    }
    if rep_of(f, a) == rep_of(f, b) {
        assert(rep_of(f, a) >= 1 && joined(g, n, a, rep_of(f, a) - 1));
        assert(rep_of(f, b) >= 1 && joined(g, n, b, rep_of(f, b) - 1));
        lemma_joined_sym(g, n, b, rep_of(f, b) - 1);
        lemma_joined_trans(g, n, a, rep_of(f, a) - 1, b);
    }
}

/// Without consecutive numbering the label of a foreground cell is one
/// more than the index of a cell of its region, and that cell carries the
/// same label.
pub proof fn lemma_label_is_a_cell_of_the_region(g: GridView, a: int)
    requires
        g.wf(),
        g.cells.len() < usize::MAX,
        is_foreground(g, a),
    ensures
        1 <= raw_labels(g)[a] <= g.cells.len(),
        connected(g, a, raw_labels(g)[a] - 1),
        raw_labels(g)[raw_labels(g)[a] - 1] == raw_labels(g)[a],
{
    let n = g.cells.len() as int;
    let f = scan(g, g.cells.len());
    lemma_scan(g, g.cells.len());
    lemma_raw_labels(g);
    let r = rep_of(f, a);
    assert(raw_labels(g)[a] == r);
    assert(r >= 1 && joined(g, n, a, r - 1));
    assert(0 <= f.reps[a + 1] < f.reps.len());
    assert(f.reps[f.reps[a + 1] as int] == f.reps[a + 1]);
    assert(raw_labels(g)[r - 1] == rep_of(f, r - 1));
    lemma_joined_is_connected(g, a, r - 1);
}

/// A diagonal pair of foreground cells, the cell in row `row` and column
/// `column` and the cell one row below it and one column to its east or to
/// its west, with no path of foreground cells between them that takes
/// steps north, east, south and west only: traced four-connected the two
/// cells carry different labels, traced eight-connected they carry the same.
pub proof fn lemma_diagonal_pair(
    g: GridView,
    consecutive: bool,
    row: int,
    column: int,
    east: bool,
)
    requires
        g.wf(),
        g.cells.len() < usize::MAX,
        0 <= row,
        row + 1 < g.height,
        0 <= column < g.width,
        east ==> column + 1 < g.width,
        !east ==> column >= 1,
        g.at(row, column) == 1,
        g.at(row + 1, if east { column + 1 } else { column - 1 }) == 1,
        !connected(
            GridView { connectivity: Connectivity::FourConnected, ..g },
            row * g.width + column,
            (row + 1) * g.width + (if east { column + 1 } else { column - 1 }),
        ),
    ensures
        region_labels(GridView { connectivity: Connectivity::FourConnected, ..g }, consecutive)[row
            * g.width + column] != region_labels(
            GridView { connectivity: Connectivity::FourConnected, ..g },
            consecutive,
        )[(row + 1) * g.width + (if east { column + 1 } else { column - 1 })],
        region_labels(GridView { connectivity: Connectivity::EightConnected, ..g }, consecutive)[row
            * g.width + column] == region_labels(
            GridView { connectivity: Connectivity::EightConnected, ..g },
            consecutive,
        )[(row + 1) * g.width + (if east { column + 1 } else { column - 1 })],
{
    let four = GridView { connectivity: Connectivity::FourConnected, ..g };
    let eight = GridView { connectivity: Connectivity::EightConnected, ..g };
    let w = g.width as int;
    let lower_column = if east {
        column + 1
    } else {
        column - 1
    };
    let a = row * w + column;
    let b = (row + 1) * w + lower_column;
    lemma_cell_index(row, column, w, g.height as int);
    lemma_cell_index(row + 1, lower_column, w, g.height as int);
    assert(b == a + w + (lower_column - column)) by (nonlinear_arith)
        requires
            a == row * w + column,
            b == (row + 1) * w + lower_column,
    ;
    assert(b >= w) by (nonlinear_arith)
        requires
            b == (row + 1) * w + lower_column,
            row >= 0,
            lower_column >= 0,
            w > 0,
    ;
    lemma_labels_tell_components_apart(four, consecutive, a, b);
    assert(behind(eight, b, a));
    assert(ties(eight, b, a));
    assert(linked(eight, eight.cells.len() as int, b, a));
    lemma_joined_link(eight, eight.cells.len() as int, b, a);
    lemma_joined_is_connected(eight, b, a);
    lemma_labels_tell_components_apart(eight, consecutive, b, a);
}

/// The labels of a lattice are settled by the lattice: two labellings of
/// one lattice, made alike, are the same.
pub proof fn lemma_labels_are_settled(
    g: GridView,
    consecutive: bool,
    first: Seq<usize>,
    second: Seq<usize>,
)
    requires
        first == region_labels(g, consecutive),
        second == region_labels(g, consecutive),
    ensures
        first == second,
{
}

/// Whatever cells stand for the regions, the consecutive labels are the
/// same: a labelling that tells the cells of a lattice apart as its labels
/// do, and gives label 0 to the cells that carry label 0, is numbered as
/// the labels of the lattice are.
pub proof fn lemma_consecutive_labels_ignore_representatives(g: GridView, other: Seq<usize>)
    requires
        same_grouping(raw_labels(g), other),
    ensures
        renumbered(other) == region_labels(g, true),
{
    lemma_numbers_ignore_representatives(raw_labels(g), other);
}

} // verus!
