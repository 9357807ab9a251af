//! Initial configurations drawn at random.

use vstd::prelude::*;
use crate::grid::{is_binary, lemma_cell_index, Connectivity, Grid};

verus! {

/// Calls `rand::random`, which draws a truth value from the generator of
/// the running thread. Nothing is promised of what is drawn.
#[verifier::external_body]
fn toss() -> (heads: bool) {
    rand::random()
}

/// The state that a toss stands for: 1 for heads, 0 for tails.
pub fn state_of_toss(heads: bool) -> (state: usize)
    ensures
        state == if heads {
            1usize
        } else {
            0usize
        },
{
    if heads {
        1
    } else {
        0
    }
}

/// A row of `width` cells, each 0 or 1 as a toss falls.
pub fn random_seed(width: usize) -> (initial_configuration: Vec<usize>)
    ensures
        initial_configuration@.len() == width,
        is_binary(initial_configuration@),
{
    let mut initial_configuration: Vec<usize> = Vec::new();
    let mut i: usize = 0;
    while i < width
        invariant
            i <= width,
            initial_configuration@.len() == i,
            is_binary(initial_configuration@),
        decreases width - i,
    {
        initial_configuration.push(state_of_toss(toss()));
        i = i + 1;
    }
    initial_configuration
}

/// A lattice of the given dimensions, traced four-connected, each cell 0
/// or 1 as a toss falls.
pub fn random_lattice(width: usize, height: usize) -> (initial_configuration: Grid)
    requires
        width * height <= usize::MAX,
    ensures
        initial_configuration.wf(),
        initial_configuration@.width == width,
        initial_configuration@.height == height,
        initial_configuration@.connectivity == Connectivity::FourConnected,
        is_binary(initial_configuration@.cells),
{
    let mut initial_configuration: Grid = Grid::new(width, height);
    let mut row_index: usize = 0;
    while row_index < height
        invariant
            row_index <= height,
            initial_configuration.wf(),
            initial_configuration@.width == width,
            initial_configuration@.height == height,
            initial_configuration@.connectivity == Connectivity::FourConnected,
            is_binary(initial_configuration@.cells),
        decreases height - row_index,
    {
        let mut column_index: usize = 0;
        while column_index < width
            invariant
                row_index < height,
                column_index <= width,
                initial_configuration.wf(),
                initial_configuration@.width == width,
                initial_configuration@.height == height,
                initial_configuration@.connectivity == Connectivity::FourConnected,
                is_binary(initial_configuration@.cells),
            decreases width - column_index,
        {
            proof {
                lemma_cell_index(
                    row_index as int,
                    column_index as int,
                    width as int,
                    height as int,
                );
            }
            initial_configuration.set_value(row_index, column_index, state_of_toss(toss()));
            column_index = column_index + 1;
        }
        row_index = row_index + 1;
    }
    initial_configuration
}

} // verus!
