use gol_rs::boundary::BoundaryType;
use gol_rs::error::AutomatonError;
use gol_rs::grid::Grid;
use gol_rs::tca2d::TCA2D;

fn lattice(width: usize, height: usize, cells: &[usize]) -> Grid {
    Grid::from_cells(width, height, cells.to_vec()).unwrap()
}

fn universe(
    rule: usize,
    width: usize,
    height: usize,
    depth: usize,
    outer_totalistic: bool,
    moore: bool,
    cells: &[usize],
) -> TCA2D {
    TCA2D::new(
        rule,
        width,
        height,
        depth,
        outer_totalistic,
        moore,
        BoundaryType::Null,
        lattice(width, height, cells),
    )
    .unwrap()
}

fn page_cells(universe: &TCA2D, page_index: usize) -> Vec<usize> {
    universe.page(page_index).get_grid().clone()
}

#[test]
fn one_generation_of_rule_224_on_a_full_three_by_three_lattice() {
    let universe = universe(224, 3, 3, 2, true, true, &[1; 9]);
    let next = universe.get_next_page(1).unwrap();
    assert_eq!(next.get_grid(), &vec![1, 0, 1, 0, 0, 0, 1, 0, 1]);
    assert_eq!(next.width(), 3);
    assert_eq!(next.height(), 3);
    assert_eq!(page_cells(&universe, 0), vec![1; 9]);
    assert_eq!(page_cells(&universe, 1), vec![0; 9]);
}

#[test]
fn von_neumann_neighbourhood_leaves_the_diagonals_out() {
    let universe = universe(224, 3, 3, 1, true, false, &[1; 9]);
    let next = universe.get_next_page(1).unwrap();
    assert_eq!(next.get_grid(), &vec![1, 1, 1, 1, 0, 1, 1, 1, 1]);
}

#[test]
fn totalistic_rule_reads_the_sum_of_all_nine_cells() {
    let universe = universe(0b10_0000_1010, 3, 3, 1, false, true, &[1, 0, 0, 0, 1, 0, 0, 0, 0]);
    let next = universe.get_next_page(1).unwrap();
    assert_eq!(next.get_grid(), &vec![0, 0, 1, 0, 0, 1, 1, 1, 1]);
}

#[test]
fn a_state_other_than_one_adds_its_own_value_to_the_sum() {
    let totalistic = universe(6, 3, 2, 1, false, false, &[0, 2, 0, 1, 0, 0]);
    assert_eq!(totalistic.get_next_page(1).unwrap().get_grid(), &vec![0, 1, 1, 1, 0, 0]);
    let outer = universe(224, 3, 1, 1, true, true, &[1, 2, 1]);
    assert_eq!(outer.get_next_page(1).unwrap().get_grid(), &vec![1, 1, 1]);
}

#[test]
fn increase_generation_writes_the_next_page() {
    let blinker = [
        0, 0, 0, 0, 0, 0, 0, 1, 0, 0, 0, 0, 1, 0, 0, 0, 0, 1, 0, 0, 0, 0, 0, 0, 0,
    ];
    let mut universe = universe(224, 5, 5, 3, true, true, &blinker);
    assert_eq!(universe.increase_generation(1), Ok(()));
    assert_eq!(
        page_cells(&universe, 1),
        vec![0, 0, 0, 0, 0, 0, 0, 0, 0, 0, 0, 1, 1, 1, 0, 0, 0, 0, 0, 0, 0, 0, 0, 0, 0]
    );
    assert_eq!(page_cells(&universe, 0), blinker.to_vec());
    assert_eq!(page_cells(&universe, 2), vec![0; 25]);
}

#[test]
fn generate_fills_every_page_from_the_one_before() {
    let blinker = [
        0, 0, 0, 0, 0, 0, 0, 1, 0, 0, 0, 0, 1, 0, 0, 0, 0, 1, 0, 0, 0, 0, 0, 0, 0,
    ];
    let mut universe = universe(224, 5, 5, 4, true, true, &blinker);
    assert_eq!(universe.generate(), Ok(()));
    let turned =
        vec![0, 0, 0, 0, 0, 0, 0, 0, 0, 0, 0, 1, 1, 1, 0, 0, 0, 0, 0, 0, 0, 0, 0, 0, 0];
    assert_eq!(page_cells(&universe, 0), blinker.to_vec());
    assert_eq!(page_cells(&universe, 1), turned);
    assert_eq!(page_cells(&universe, 2), blinker.to_vec());
    assert_eq!(page_cells(&universe, 3), turned);
    assert_eq!(universe.get_value(1, 2, 1), 1);
    assert_eq!(universe.get_value(1, 1, 2), 0);
}

#[test]
fn rolling_keeps_one_page_however_often_it_advances() {
    let blinker = [
        0, 0, 0, 0, 0, 0, 0, 1, 0, 0, 0, 0, 1, 0, 0, 0, 0, 1, 0, 0, 0, 0, 0, 0, 0,
    ];
    let turned =
        vec![0, 0, 0, 0, 0, 0, 0, 0, 0, 0, 0, 1, 1, 1, 0, 0, 0, 0, 0, 0, 0, 0, 0, 0, 0];
    let mut universe = universe(224, 5, 5, 1, true, true, &blinker);
    for advance in 1..8 {
        assert_eq!(universe.roll_generation(), Ok(()));
        let expected = if advance % 2 == 1 { turned.clone() } else { blinker.to_vec() };
        assert_eq!(page_cells(&universe, 0), expected);
        assert_eq!(universe.to_string().matches("page : ").count(), 1);
    }
}

#[test]
fn rolling_leaves_later_pages_alone() {
    let mut universe = universe(224, 3, 3, 2, true, true, &[1; 9]);
    universe.set_value(1, 1, 1, 7);
    assert_eq!(universe.roll_generation(), Ok(()));
    assert_eq!(page_cells(&universe, 0), vec![1, 0, 1, 0, 0, 0, 1, 0, 1]);
    assert_eq!(page_cells(&universe, 1), vec![0, 0, 0, 0, 7, 0, 0, 0, 0]);
}

#[test]
fn pattern_that_reaches_the_last_column_is_not_inserted() {
    let mut universe = universe(224, 4, 3, 1, true, true, &[0; 12]);
    universe.insert_at(0, 0, 2, 2, 2, vec![1, 1, 1, 1]);
    assert_eq!(page_cells(&universe, 0), vec![0; 12]);
    universe.insert_at(0, 0, 3, 1, 1, vec![1]);
    assert_eq!(page_cells(&universe, 0), vec![0; 12]);
    universe.insert_page(0, 0, 0, 4, 3, vec![1; 12]);
    assert_eq!(page_cells(&universe, 0), vec![0; 12]);
}

#[test]
fn pattern_that_leaves_the_last_row_is_not_inserted() {
    let mut universe = universe(224, 4, 3, 1, true, true, &[0; 12]);
    universe.insert_at(0, 2, 0, 2, 2, vec![1, 1, 1, 1]);
    assert_eq!(page_cells(&universe, 0), vec![0; 12]);
    universe.insert_at(0, usize::MAX, 0, 1, 1, vec![1]);
    assert_eq!(page_cells(&universe, 0), vec![0; 12]);
    universe.insert_at(0, 0, usize::MAX, 1, 1, vec![1]);
    assert_eq!(page_cells(&universe, 0), vec![0; 12]);
}

#[test]
fn pattern_that_fits_is_copied_cell_by_cell() {
    let mut universe = universe(224, 4, 3, 2, true, true, &[0; 12]);
    universe.insert_at(1, 1, 1, 2, 2, vec![5, 6, 7, 8]);
    assert_eq!(page_cells(&universe, 1), vec![0, 0, 0, 0, 0, 5, 6, 0, 0, 7, 8, 0]);
    assert_eq!(page_cells(&universe, 0), vec![0; 12]);
    universe.insert_page(1, 0, 0, 3, 3, vec![1, 2, 3, 4, 9, 9, 9, 9, 9]);
    assert_eq!(page_cells(&universe, 1), vec![1, 2, 3, 0, 4, 9, 9, 0, 9, 9, 9, 0]);
}

#[test]
fn reset_restores_the_first_page_only() {
    let mut universe = universe(224, 3, 3, 2, true, true, &[1; 9]);
    universe.generate().unwrap();
    universe.set_value(0, 0, 0, 9);
    universe.set_value(0, 2, 2, 0);
    universe.reset();
    assert_eq!(page_cells(&universe, 0), vec![1; 9]);
    assert_eq!(page_cells(&universe, 1), vec![1, 0, 1, 0, 0, 0, 1, 0, 1]);
}

#[test]
fn configuration_of_other_dimensions_is_rejected() {
    let made = TCA2D::new(224, 3, 3, 1, true, true, BoundaryType::Null, lattice(3, 2, &[0; 6]));
    assert!(matches!(made, Err(AutomatonError::DimensionMismatch)));
    let made = TCA2D::new(224, 2, 3, 1, true, true, BoundaryType::Null, lattice(3, 2, &[0; 6]));
    assert!(matches!(made, Err(AutomatonError::DimensionMismatch)));
    let made = TCA2D::new(224, 3, 2, 0, true, true, BoundaryType::Null, lattice(3, 2, &[0; 6]));
    assert!(matches!(made, Err(AutomatonError::NoPages)));
}

#[test]
fn later_pages_start_blank() {
    let universe = universe(224, 2, 2, 3, true, true, &[1, 0, 0, 1]);
    assert_eq!(page_cells(&universe, 0), vec![1, 0, 0, 1]);
    assert_eq!(page_cells(&universe, 1), vec![0; 4]);
    assert_eq!(page_cells(&universe, 2), vec![0; 4]);
}

#[test]
fn unsupported_policy_refuses_to_advance() {
    for policy in [
        BoundaryType::Cylinder,
        BoundaryType::Moebius,
        BoundaryType::Torus,
        BoundaryType::Klein,
    ] {
        let mut universe =
            TCA2D::new(224, 3, 3, 2, true, true, policy, lattice(3, 3, &[1; 9])).unwrap();
        assert!(matches!(universe.get_next_page(1), Err(AutomatonError::UnsupportedBoundary)));
        assert_eq!(universe.increase_generation(1), Err(AutomatonError::UnsupportedBoundary));
        assert_eq!(universe.roll_generation(), Err(AutomatonError::UnsupportedBoundary));
        assert_eq!(universe.generate(), Err(AutomatonError::UnsupportedBoundary));
        assert_eq!(page_cells(&universe, 0), vec![1; 9]);
        assert_eq!(page_cells(&universe, 1), vec![0; 9]);
    }
    let mut single =
        TCA2D::new(224, 3, 3, 1, true, true, BoundaryType::Torus, lattice(3, 3, &[1; 9])).unwrap();
    assert_eq!(single.generate(), Ok(()));
    assert_eq!(page_cells(&single, 0), vec![1; 9]);
}

#[test]
fn universe_is_written_page_by_page() {
    let mut universe = universe(224, 2, 2, 2, true, true, &[1, 0, 12, 1]);
    universe.set_value(1, 0, 1, 3);
    assert_eq!(universe.get_page(0), "10\n121\n");
    assert_eq!(universe.to_string(), "page : 0\n10\n121\n\npage : 1\n03\n00\n\n");
}

#[test]
fn engine_and_labeller_read_a_state_of_two_differently() {
    let universe = universe(6, 3, 1, 1, false, false, &[0, 2, 0]);
    assert_eq!(universe.get_next_page(1).unwrap().get_grid(), &vec![1, 1, 1]);
    assert_eq!(universe.page(0).get_connected_components(true), vec![0, 0, 0]);
}

#[test]
fn universe_without_cells_advances_to_nothing() {
    for (width, height) in [(0, 3), (3, 0), (0, 0)] {
        let mut universe = universe(224, width, height, 2, true, true, &[]);
        assert_eq!(universe.generate(), Ok(()));
        assert_eq!(universe.roll_generation(), Ok(()));
        universe.insert_at(0, 0, 0, 0, 0, vec![]);
        universe.insert_at(1, 0, 0, 1, 1, vec![1]);
        universe.reset();
        assert_eq!(page_cells(&universe, 0), Vec::<usize>::new());
        assert_eq!(page_cells(&universe, 1), Vec::<usize>::new());
        assert_eq!(universe.get_page(0), "");
        assert_eq!(universe.width(), width);
        assert_eq!(universe.height(), height);
        assert_eq!(universe.depth(), 2);
    }
}

#[test]
fn empty_pattern_changes_nothing() {
    let mut universe = universe(224, 3, 2, 1, false, true, &[1, 2, 3, 4, 5, 6]);
    universe.insert_at(0, 2, 2, 0, 0, vec![]);
    universe.insert_at(0, 0, 0, 2, 0, vec![]);
    universe.insert_at(0, 1, 1, 0, 1, vec![]);
    assert_eq!(page_cells(&universe, 0), vec![1, 2, 3, 4, 5, 6]);
    assert_eq!(universe.rule(), 224);
    assert!(universe.moore());
    assert!(!universe.outer_totalistic());
}
