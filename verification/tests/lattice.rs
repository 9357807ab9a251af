use gol_rs::error::AutomatonError;
use gol_rs::grid::{Connectivity, Grid};

#[test]
fn new_lattice_is_blank() {
    let grid = Grid::new(3, 2);
    assert_eq!(grid.width(), 3);
    assert_eq!(grid.height(), 2);
    assert_eq!(grid.get_grid(), &vec![0; 6]);
    assert_eq!(grid.connectivity(), Connectivity::FourConnected);
}

#[test]
fn cells_are_kept_row_by_row() {
    let mut grid = Grid::new(3, 2);
    grid.set_value(1, 0, 7);
    grid.set_value(0, 2, 5);
    assert_eq!(grid.get_grid(), &vec![0, 0, 5, 7, 0, 0]);
    assert_eq!(grid.get_value(1, 0), 7);
    assert_eq!(grid.get_value(0, 2), 5);
    assert_eq!(grid.get_value(1, 2), 0);
}

#[test]
fn distinct_coordinates_do_not_alias() {
    let mut grid = Grid::new(4, 3);
    for row in 0..3 {
        for column in 0..4 {
            grid.set_value(row, column, 10 * row + column + 1);
        }
    }
    for row in 0..3 {
        for column in 0..4 {
            assert_eq!(grid.get_value(row, column), 10 * row + column + 1);
        }
    }
}

#[test]
fn configuration_must_have_one_cell_for_each_coordinate() {
    assert!(matches!(Grid::from_cells(3, 2, vec![0; 5]), Err(AutomatonError::DimensionMismatch)));
    assert!(matches!(Grid::from_cells(3, 2, vec![0; 7]), Err(AutomatonError::DimensionMismatch)));
    assert!(matches!(
        Grid::from_cells(usize::MAX, 2, vec![0; 2]),
        Err(AutomatonError::DimensionMismatch)
    ));
    let grid = Grid::from_cells(3, 2, vec![1, 2, 3, 4, 5, 6]).unwrap();
    assert_eq!(grid.get_value(1, 1), 5);
    assert_eq!(grid.get_grid(), &vec![1, 2, 3, 4, 5, 6]);
}

#[test]
fn lattice_is_written_as_comma_separated_values() {
    let grid = Grid::from_cells(2, 2, vec![0, 12, 3, 0]).unwrap();
    assert_eq!(grid.get_grid_str(), "0,12\n3,0\n");
    assert_eq!(grid.to_string(), "0,12\n3,0\n");
    assert_eq!(Grid::new(0, 0).get_grid_str(), "");
    let wide = Grid::from_cells(1, 3, vec![1234567890, 0, 101]).unwrap();
    assert_eq!(wide.get_grid_str(), "1234567890\n0\n101\n");
}

#[test]
fn file_name_holds_the_dimensions() {
    assert_eq!(Grid::new(200, 130).csv_file_name(), "./width200|height130.csv");
    assert_eq!(Grid::new(0, 7).csv_file_name(), "./width0|height7.csv");
}

#[test]
fn greatest_state_counts_the_labels() {
    let grid = Grid::from_cells(3, 2, vec![0, 1, 1, 3, 0, 2]).unwrap();
    assert_eq!(grid.get_number_of_components(), 3);
    assert_eq!(Grid::new(2, 2).get_number_of_components(), 0);
}

#[test]
fn cells_are_replaced_wholesale() {
    let mut grid = Grid::new(2, 2);
    grid.set_connectivity(Connectivity::EightConnected);
    grid.replace_cells(vec![4, 3, 2, 1]);
    assert_eq!(grid.get_grid(), &vec![4, 3, 2, 1]);
    let copy = grid.with_cells(vec![9, 9, 9, 9]);
    assert_eq!(copy.get_grid(), &vec![9, 9, 9, 9]);
    assert_eq!(copy.connectivity(), Connectivity::EightConnected);
    assert_eq!(copy.width(), 2);
    assert_eq!(grid.get_grid(), &vec![4, 3, 2, 1]);
}
