use gol_rs::pixels::{label_pixels, state_pixels};
use gol_rs::text::push_decimal;

#[test]
fn page_frame_is_white_for_state_one() {
    assert_eq!(state_pixels(&vec![0, 1, 2, 1]), vec![0, 0xffffff, 0, 0xffffff]);
    assert_eq!(state_pixels(&vec![]), Vec::<u32>::new());
}

#[test]
fn region_frame_shades_by_label() {
    assert_eq!(label_pixels(&vec![0, 1, 2, 35]), vec![0, 1000, 2000, 35000]);
    assert_eq!(label_pixels(&vec![4_294_968]), vec![704]);
    assert_eq!(label_pixels(&vec![4_294_967]), vec![4_294_967_000]);
}

#[test]
fn numerals_have_no_leading_zeros() {
    let mut text = String::from("n=");
    push_decimal(&mut text, 0);
    push_decimal(&mut text, 7);
    push_decimal(&mut text, 10);
    push_decimal(&mut text, 90210);
    assert_eq!(text, "n=071090210");
    let mut greatest = String::new();
    push_decimal(&mut greatest, usize::MAX);
    assert_eq!(greatest, usize::MAX.to_string());
}
