use gol_rs::compass_direction::{Compass, CompassDirection};

fn table(diagonals: bool) -> Vec<CompassDirection> {
    vec![
        CompassDirection { x: -1, y: -1, cardinal: false, active: diagonals },
        CompassDirection { x: 0, y: -1, cardinal: true, active: true },
        CompassDirection { x: 1, y: -1, cardinal: false, active: diagonals },
        CompassDirection { x: -1, y: 0, cardinal: true, active: true },
        CompassDirection { x: 0, y: 0, cardinal: false, active: true },
        CompassDirection { x: 1, y: 0, cardinal: true, active: true },
        CompassDirection { x: -1, y: 1, cardinal: false, active: diagonals },
        CompassDirection { x: 0, y: 1, cardinal: true, active: true },
        CompassDirection { x: 1, y: 1, cardinal: false, active: diagonals },
    ]
}

#[test]
fn moore_compass_has_all_nine_directions_active() {
    let compass = Compass::new(false);
    assert_eq!(compass.directions(), &table(true));
}

#[test]
fn von_neumann_compass_leaves_the_diagonals_out() {
    let compass = Compass::new(true);
    assert_eq!(compass.directions(), &table(false));
}

#[test]
fn compass_has_four_cardinals_one_origin_four_diagonals() {
    let compass = Compass::new(true);
    let directions = compass.directions();
    assert_eq!(directions.len(), 9);
    assert_eq!(directions.iter().filter(|d| d.cardinal).count(), 4);
    assert_eq!(directions.iter().filter(|d| d.x == 0 && d.y == 0).count(), 1);
    assert_eq!(directions.iter().filter(|d| d.x != 0 && d.y != 0).count(), 4);
    assert_eq!(directions.iter().filter(|d| d.active).count(), 5);
}
