use gol_rs::eca::{ECA, RULES};
use gol_rs::error::AutomatonError;

#[test]
fn rule_90_from_a_single_cell() {
    let mut automaton = ECA::new(90, 7, 4, vec![0, 0, 0, 1, 0, 0, 0]).unwrap();
    automaton.generate();
    assert_eq!(
        automaton.universe().get_grid(),
        &vec![
            0, 0, 0, 1, 0, 0, 0, 0, 0, 1, 0, 1, 0, 0, 0, 1, 0, 0, 0, 1, 0, 1, 0, 1, 0, 1, 0, 1
        ]
    );
}

#[test]
fn rule_110_from_a_single_cell() {
    let mut automaton = ECA::new(110, 8, 5, vec![0, 0, 0, 0, 0, 0, 1, 0]).unwrap();
    automaton.generate();
    assert_eq!(
        automaton.universe().get_grid(),
        &vec![
            0, 0, 0, 0, 0, 0, 1, 0, 0, 0, 0, 0, 0, 1, 1, 0, 0, 0, 0, 0, 1, 1, 1, 0, 0, 0, 0, 1,
            1, 0, 1, 0, 0, 0, 1, 1, 1, 1, 1, 0
        ]
    );
}

#[test]
fn neighbours_in_the_first_and_the_last_column_count_as_zero() {
    let mut automaton = ECA::new(30, 5, 3, vec![1, 1, 1, 1, 1]).unwrap();
    automaton.generate();
    assert_eq!(
        automaton.universe().get_grid(),
        &vec![1, 1, 1, 1, 1, 0, 1, 0, 0, 0, 1, 1, 1, 0, 0]
    );
}

#[test]
fn narrow_rows() {
    let mut one = ECA::new(255, 1, 3, vec![1]).unwrap();
    one.generate();
    assert_eq!(one.universe().get_grid(), &vec![1, 1, 1]);
    let mut two = ECA::new(254, 2, 3, vec![1, 0]).unwrap();
    two.generate();
    assert_eq!(two.universe().get_grid(), &vec![1, 0, 1, 1, 1, 1]);
    let mut none = ECA::new(30, 0, 0, vec![]).unwrap();
    none.generate();
    assert_eq!(none.universe().get_grid(), &Vec::<usize>::new());
}

#[test]
fn states_beyond_one_are_read_bit_by_bit() {
    let mut automaton = ECA::new(255, 3, 2, vec![0, 3, 0]).unwrap();
    automaton.generate();
    assert_eq!(automaton.universe().get_grid(), &vec![0, 3, 0, 1, 1, 0]);
}

#[test]
fn cells_can_be_read_and_written() {
    let mut automaton = ECA::new(90, 3, 2, vec![1, 0, 1]).unwrap();
    assert_eq!(automaton.get_value(0, 0), 1);
    assert_eq!(automaton.get_value(0, 1), 0);
    assert_eq!(automaton.get_value(1, 2), 0);
    automaton.set_value(1, 2, 4);
    assert_eq!(automaton.get_value(1, 2), 4);
    assert_eq!(automaton.universe().get_grid(), &vec![1, 0, 1, 0, 0, 4]);
}

#[test]
fn initial_row_must_fit_the_lattice() {
    assert!(matches!(ECA::new(90, 3, 2, vec![1, 0]), Err(AutomatonError::DimensionMismatch)));
    assert!(matches!(ECA::new(90, 3, 2, vec![1, 0, 1, 1]), Err(AutomatonError::DimensionMismatch)));
    assert!(matches!(ECA::new(90, 3, 0, vec![1, 0, 1]), Err(AutomatonError::DimensionMismatch)));
    assert!(ECA::new(90, 3, 1, vec![1, 0, 1]).is_ok());
}

#[test]
fn reset_puts_the_seed_back_and_blanks_the_rest() {
    let mut automaton = ECA::new(90, 7, 4, vec![0, 0, 0, 1, 0, 0, 0]).unwrap();
    automaton.generate();
    automaton.set_value(0, 0, 9);
    automaton.reset();
    let mut expected = vec![0; 28];
    expected[3] = 1;
    assert_eq!(automaton.universe().get_grid(), &expected);
}

#[test]
fn pixels_are_white_for_zero_and_the_low_bytes_otherwise() {
    let mut automaton = ECA::new(90, 2, 2, vec![0, 1]).unwrap();
    automaton.set_value(1, 0, 0x0403_0201);
    automaton.set_value(1, 1, 0x01_0000);
    assert_eq!(
        automaton.get_flattened_universe(),
        vec![
            0xff, 0xff, 0xff, 0xff, 0x01, 0x00, 0x00, 0xff, 0x01, 0x02, 0x03, 0xff, 0x00, 0x00,
            0x01, 0xff
        ]
    );
}

#[test]
fn regions_of_the_generations_are_labelled_in_place() {
    let mut automaton = ECA::new(90, 7, 4, vec![0, 0, 0, 1, 0, 0, 0]).unwrap();
    automaton.generate();
    automaton.generate_connected_components();
    assert_eq!(
        automaton.universe().get_grid(),
        &vec![
            0, 0, 0, 1, 0, 0, 0, 0, 0, 2, 0, 3, 0, 0, 0, 4, 0, 0, 0, 5, 0, 6, 0, 7, 0, 8, 0, 9
        ]
    );
    assert_eq!(automaton.universe().get_number_of_components(), 9);
}

#[test]
fn automaton_is_written_with_its_rule() {
    let automaton = ECA::new(90, 2, 2, vec![1, 0]).unwrap();
    assert_eq!(automaton.to_string(), "Rule : 90 | universe : \n1,0\n0,0\n ");
    assert_eq!(automaton.image_file_name(), "./rule90length2.png");
    let other = ECA::new(7, 0, 0, vec![]).unwrap();
    assert_eq!(other.to_string(), "Rule : 7 | universe : \n ");
    assert_eq!(other.image_file_name(), "./rule7length0.png");
}

#[test]
fn inequivalent_rules_are_listed_in_rising_order() {
    assert_eq!(RULES.len(), 88);
    assert_eq!(RULES[0], 0);
    assert_eq!(RULES[87], 232);
    assert!(RULES.windows(2).all(|pair| pair[0] < pair[1]));
    assert!(RULES.contains(&30) && RULES.contains(&90) && RULES.contains(&110));
}
