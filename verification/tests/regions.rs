use gol_rs::components::number_consecutively;
use gol_rs::grid::{Connectivity, Grid};

fn lattice(width: usize, height: usize, cells: &[usize], connectivity: Connectivity) -> Grid {
    let mut grid = Grid::from_cells(width, height, cells.to_vec()).unwrap();
    grid.set_connectivity(connectivity);
    grid
}

#[test]
fn diagonal_pair_is_two_regions_when_four_connected() {
    let grid = lattice(3, 3, &[0, 0, 0, 0, 1, 0, 0, 0, 1], Connectivity::FourConnected);
    assert_eq!(grid.get_connected_components(false), vec![0, 0, 0, 0, 5, 0, 0, 0, 9]);
    assert_eq!(grid.get_connected_components(true), vec![0, 0, 0, 0, 1, 0, 0, 0, 2]);
    assert_eq!(grid.get_connected_components_grid().get_number_of_components(), 2);
}

#[test]
fn diagonal_pair_is_one_region_when_eight_connected() {
    let grid = lattice(3, 3, &[0, 0, 0, 0, 1, 0, 0, 0, 1], Connectivity::EightConnected);
    assert_eq!(grid.get_connected_components(false), vec![0, 0, 0, 0, 9, 0, 0, 0, 9]);
    assert_eq!(grid.get_connected_components(true), vec![0, 0, 0, 0, 1, 0, 0, 0, 1]);
    assert_eq!(grid.get_connected_components_grid().get_number_of_components(), 1);
}

#[test]
fn diagonal_pair_at_the_first_cell() {
    let four = lattice(2, 2, &[1, 0, 0, 1], Connectivity::FourConnected);
    assert_eq!(four.get_connected_components(false), vec![1, 0, 0, 4]);
    assert_eq!(four.get_connected_components(true), vec![1, 0, 0, 2]);
    assert_eq!(four.get_connected_components_grid().get_number_of_components(), 2);
    let eight = lattice(2, 2, &[1, 0, 0, 1], Connectivity::EightConnected);
    assert_eq!(eight.get_connected_components(false), vec![4, 0, 0, 4]);
    assert_eq!(eight.get_connected_components(true), vec![1, 0, 0, 1]);
    assert_eq!(eight.get_connected_components_grid().get_number_of_components(), 1);
}

#[test]
fn anti_diagonal_pair_is_joined_by_the_north_east_neighbour() {
    let cells = [0, 0, 1, 0, 1, 0, 0, 0, 0];
    let four = lattice(3, 3, &cells, Connectivity::FourConnected);
    assert_eq!(four.get_connected_components(true), vec![0, 0, 1, 0, 2, 0, 0, 0, 0]);
    let eight = lattice(3, 3, &cells, Connectivity::EightConnected);
    assert_eq!(eight.get_connected_components(false), vec![0, 0, 5, 0, 5, 0, 0, 0, 0]);
    assert_eq!(eight.get_connected_components(true), vec![0, 0, 1, 0, 1, 0, 0, 0, 0]);
}

#[test]
fn six_connected_is_traced_like_four_connected() {
    let cells = [0, 0, 0, 0, 1, 0, 0, 0, 1];
    let six = lattice(3, 3, &cells, Connectivity::SixConnected);
    assert_eq!(six.get_connected_components(true), vec![0, 0, 0, 0, 1, 0, 0, 0, 2]);
}

#[test]
fn representative_follows_the_ranks_of_the_sets() {
    let grid = lattice(4, 2, &[0, 1, 0, 1, 0, 1, 1, 1], Connectivity::FourConnected);
    assert_eq!(grid.get_connected_components(false), vec![0, 8, 0, 8, 0, 8, 8, 8]);
    assert_eq!(grid.get_connected_components(true), vec![0, 1, 0, 1, 0, 1, 1, 1]);
}

#[test]
fn foreground_first_cell_leaves_the_background_alone() {
    let couple = lattice(2, 1, &[1, 0], Connectivity::FourConnected);
    assert_eq!(couple.get_connected_components(false), vec![1, 0]);
    assert_eq!(couple.get_connected_components(true), vec![1, 0]);
    let pair = lattice(2, 1, &[1, 1], Connectivity::FourConnected);
    assert_eq!(pair.get_connected_components(false), vec![2, 2]);
    assert_eq!(pair.get_connected_components(true), vec![1, 1]);
    let triple = lattice(3, 1, &[1, 1, 0], Connectivity::FourConnected);
    assert_eq!(triple.get_connected_components(false), vec![2, 2, 0]);
    assert_eq!(triple.get_connected_components(true), vec![1, 1, 0]);
    let ring = lattice(3, 3, &[1, 0, 1, 1, 0, 1, 1, 1, 1], Connectivity::FourConnected);
    assert_eq!(ring.get_connected_components(false), vec![6, 0, 6, 6, 0, 6, 6, 6, 6]);
    assert_eq!(ring.get_connected_components(true), vec![1, 0, 1, 1, 0, 1, 1, 1, 1]);
    assert_eq!(ring.get_connected_components_grid().get_number_of_components(), 1);
}

#[test]
fn states_other_than_one_are_background() {
    let grid = lattice(3, 1, &[0, 2, 1], Connectivity::FourConnected);
    assert_eq!(grid.get_connected_components(false), vec![0, 0, 3]);
    assert_eq!(grid.get_connected_components(true), vec![0, 0, 1]);
    let first = lattice(3, 1, &[2, 1, 0], Connectivity::FourConnected);
    assert_eq!(first.get_connected_components(true), vec![0, 1, 0]);
}

#[test]
fn labelling_twice_gives_the_same_labels() {
    let grid = lattice(4, 2, &[0, 1, 0, 1, 0, 1, 1, 1], Connectivity::EightConnected);
    let first = grid.get_connected_components(true);
    let second = grid.get_connected_components(true);
    assert_eq!(first, second);
}

#[test]
fn labels_are_numbered_in_order_of_first_occurrence() {
    let mut labels = vec![7, 0, 3, 7, 9, 3, 0];
    number_consecutively(&mut labels);
    assert_eq!(labels, vec![1, 0, 2, 1, 3, 2, 0]);
    number_consecutively(&mut labels);
    assert_eq!(labels, vec![1, 0, 2, 1, 3, 2, 0]);
}

#[test]
fn empty_lattice_has_no_labels() {
    let grid = Grid::new(0, 0);
    assert_eq!(grid.get_connected_components(false), Vec::<usize>::new());
    assert_eq!(grid.get_connected_components(true), Vec::<usize>::new());
    assert_eq!(grid.get_number_of_components(), 0);
}

#[test]
fn label_connected_components_writes_the_labels_into_the_lattice() {
    let mut grid = lattice(3, 3, &[0, 1, 0, 0, 0, 0, 1, 1, 0], Connectivity::FourConnected);
    assert_eq!(grid.get_connected_components(false), vec![0, 2, 0, 0, 0, 0, 8, 8, 0]);
    grid.label_connected_components();
    assert_eq!(grid.get_grid(), &vec![0, 1, 0, 0, 0, 0, 2, 2, 0]);
    assert_eq!(grid.get_number_of_components(), 2);
    assert_eq!(grid.connectivity(), Connectivity::FourConnected);
}

#[test]
fn lone_foreground_cell_is_a_region_of_its_own() {
    let single = lattice(1, 1, &[1], Connectivity::FourConnected);
    assert_eq!(single.get_connected_components(false), vec![1]);
    assert_eq!(single.get_connected_components(true), vec![1]);
    assert_eq!(single.get_connected_components_grid().get_number_of_components(), 1);
    let row = lattice(3, 1, &[1, 0, 1], Connectivity::FourConnected);
    assert_eq!(row.get_connected_components(false), vec![1, 0, 3]);
    assert_eq!(row.get_connected_components(true), vec![1, 0, 2]);
}

#[test]
fn background_only_lattice_has_label_zero_everywhere() {
    let grid = lattice(3, 2, &[0, 5, 0, 2, 0, 0], Connectivity::EightConnected);
    assert_eq!(grid.get_connected_components(false), vec![0; 6]);
    assert_eq!(grid.get_connected_components(true), vec![0; 6]);
    assert_eq!(grid.get_connected_components_grid().get_number_of_components(), 0);
}

#[test]
fn regions_that_meet_late_get_one_label() {
    let cells = [1, 0, 1, 1, 0, 1, 1, 1, 1];
    let mut shifted = vec![0, 0, 0, 0];
    for row in 0..3 {
        shifted.push(0);
        shifted.extend_from_slice(&cells[3 * row..3 * row + 3]);
    }
    let grid = lattice(4, 4, &shifted, Connectivity::FourConnected);
    assert_eq!(
        grid.get_connected_components(false),
        vec![0, 0, 0, 0, 0, 12, 0, 12, 0, 12, 0, 12, 0, 12, 12, 12]
    );
    assert_eq!(
        grid.get_connected_components(true),
        vec![0, 0, 0, 0, 0, 1, 0, 1, 0, 1, 0, 1, 0, 1, 1, 1]
    );
}
