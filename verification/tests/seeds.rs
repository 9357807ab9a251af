use gol_rs::grid::Connectivity;
use gol_rs::seed::{random_lattice, random_seed, state_of_toss};

#[test]
fn toss_stands_for_a_state() {
    assert_eq!(state_of_toss(true), 1);
    assert_eq!(state_of_toss(false), 0);
}

#[test]
fn random_seed_is_a_row_of_zeros_and_ones() {
    for width in [0, 1, 17, 200] {
        let seed = random_seed(width);
        assert_eq!(seed.len(), width);
        assert!(seed.iter().all(|cell| *cell <= 1));
    }
}

#[test]
fn random_seed_draws_both_states() {
    let seed = random_seed(4096);
    assert!(seed.contains(&0));
    assert!(seed.contains(&1));
}

#[test]
fn random_lattice_is_filled_with_zeros_and_ones() {
    let lattice = random_lattice(7, 5);
    assert_eq!(lattice.width(), 7);
    assert_eq!(lattice.height(), 5);
    assert_eq!(lattice.get_grid().len(), 35);
    assert!(lattice.get_grid().iter().all(|cell| *cell <= 1));
    assert_eq!(lattice.connectivity(), Connectivity::FourConnected);
    assert_eq!(random_lattice(0, 9).get_grid().len(), 0);
}
