use gol_rs::boundary::{Boundary, BoundaryType};
use gol_rs::compass_direction::CompassDirection;
use gol_rs::error::AutomatonError;

fn step(x: isize, y: isize) -> CompassDirection {
    CompassDirection { x, y, cardinal: (x == 0) != (y == 0), active: true }
}

#[test]
fn first_row_has_nothing_north_of_it() {
    let boundary = Boundary::new(4, 3, BoundaryType::Null);
    assert_eq!(boundary.get_new_row_index(0, &step(0, -1)), Ok(None));
    assert_eq!(boundary.get_new_row_index(0, &step(1, -1)), Ok(None));
}

#[test]
fn last_row_has_nothing_south_of_it() {
    let boundary = Boundary::new(4, 3, BoundaryType::Null);
    assert_eq!(boundary.get_new_row_index(2, &step(0, 1)), Ok(None));
    assert_eq!(boundary.get_new_row_index(2, &step(-1, 1)), Ok(None));
}

#[test]
fn every_other_row_step_lands_on_the_sum() {
    let boundary = Boundary::new(4, 3, BoundaryType::Null);
    assert_eq!(boundary.get_new_row_index(0, &step(0, 0)), Ok(Some(0)));
    assert_eq!(boundary.get_new_row_index(0, &step(0, 1)), Ok(Some(1)));
    assert_eq!(boundary.get_new_row_index(1, &step(0, -1)), Ok(Some(0)));
    assert_eq!(boundary.get_new_row_index(1, &step(0, 0)), Ok(Some(1)));
    assert_eq!(boundary.get_new_row_index(1, &step(0, 1)), Ok(Some(2)));
    assert_eq!(boundary.get_new_row_index(2, &step(0, -1)), Ok(Some(1)));
    assert_eq!(boundary.get_new_row_index(2, &step(0, 0)), Ok(Some(2)));
}

#[test]
fn columns_resolve_by_the_width() {
    let boundary = Boundary::new(4, 3, BoundaryType::Null);
    assert_eq!(boundary.get_new_column_index(0, &step(-1, 0)), Ok(None));
    assert_eq!(boundary.get_new_column_index(3, &step(1, 0)), Ok(None));
    assert_eq!(boundary.get_new_column_index(0, &step(1, 0)), Ok(Some(1)));
    assert_eq!(boundary.get_new_column_index(2, &step(1, 0)), Ok(Some(3)));
    assert_eq!(boundary.get_new_column_index(3, &step(-1, 0)), Ok(Some(2)));
    assert_eq!(boundary.get_new_column_index(3, &step(0, 1)), Ok(Some(3)));
}

#[test]
fn single_row_has_no_neighbour_rows() {
    let boundary = Boundary::new(5, 1, BoundaryType::Null);
    assert_eq!(boundary.get_new_row_index(0, &step(0, -1)), Ok(None));
    assert_eq!(boundary.get_new_row_index(0, &step(0, 1)), Ok(None));
    assert_eq!(boundary.get_new_row_index(0, &step(0, 0)), Ok(Some(0)));
}

#[test]
fn other_policies_are_refused() {
    for policy in [
        BoundaryType::Cylinder,
        BoundaryType::Moebius,
        BoundaryType::Torus,
        BoundaryType::Klein,
    ] {
        let boundary = Boundary::new(4, 3, policy);
        assert_eq!(boundary.get_policy(), policy);
        assert_eq!(
            boundary.get_new_row_index(1, &step(0, 1)),
            Err(AutomatonError::UnsupportedBoundary)
        );
        assert_eq!(
            boundary.get_new_column_index(0, &step(-1, 0)),
            Err(AutomatonError::UnsupportedBoundary)
        );
    }
}

#[test]
fn policy_is_kept() {
    let boundary = Boundary::new(2, 2, BoundaryType::Null);
    assert_eq!(boundary.get_policy(), BoundaryType::Null);
    assert_eq!(boundary.boundary_type, BoundaryType::Null);
}
