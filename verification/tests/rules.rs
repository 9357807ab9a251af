use gol_rs::generation::{read_rule_bit, sum_states};
use gol_rs::tca2d::TCA2D;

#[test]
fn rule_224_has_three_live_entries() {
    for a in 0..2usize {
        for n in 0..9usize {
            let live = (a, n) == (1, 2) || (a, n) == (0, 3) || (a, n) == (1, 3);
            let expected = if live { 1 } else { 0 };
            assert_eq!(TCA2D::rule_lookup_outer_totalistic(a, n, 224), expected);
        }
    }
}

#[test]
fn outer_totalistic_lookup_reads_bit_two_n_plus_a() {
    let code: usize = 0b10_0101_1001_1100_0110;
    for a in 0..2usize {
        for n in 0..9usize {
            assert_eq!(TCA2D::rule_lookup_outer_totalistic(a, n, code), (code >> (2 * n + a)) & 1);
        }
    }
    assert_eq!(TCA2D::rule_lookup_outer_totalistic(1, 8, 1 << 17), 1);
    assert_eq!(TCA2D::rule_lookup_outer_totalistic(0, 8, 1 << 17), 0);
}

#[test]
fn totalistic_lookup_reads_bit_n() {
    let code: usize = 0b10_0110_1001;
    for n in 0..10usize {
        assert_eq!(TCA2D::rule_lookup_totalistic(n, code), (code >> n) & 1);
    }
}

#[test]
fn bits_beyond_the_code_are_zero() {
    assert_eq!(TCA2D::rule_lookup_totalistic(usize::BITS as usize, usize::MAX), 0);
    assert_eq!(TCA2D::rule_lookup_totalistic(usize::MAX, usize::MAX), 0);
    assert_eq!(TCA2D::rule_lookup_outer_totalistic(1, usize::MAX, usize::MAX), 0);
    assert_eq!(TCA2D::rule_lookup_outer_totalistic(usize::MAX, 1, usize::MAX), 0);
    assert_eq!(read_rule_bit(usize::MAX, usize::BITS as usize - 1), 1);
    assert_eq!(read_rule_bit(usize::MAX, usize::BITS as usize), 0);
}

#[test]
fn sum_of_states_stops_at_the_greatest_integer() {
    assert_eq!(sum_states(&vec![]), 0);
    assert_eq!(sum_states(&vec![1, 0, 1, 1, 0, 0, 1, 0, 2]), 6);
    assert_eq!(sum_states(&vec![usize::MAX, 1]), usize::MAX);
    assert_eq!(sum_states(&vec![usize::MAX - 1, 1]), usize::MAX);
    assert_eq!(sum_states(&vec![usize::MAX / 2, usize::MAX / 2, 5]), usize::MAX);
}
