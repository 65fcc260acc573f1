use file2wav::width::{generate_bit_mask, is_valid_width};

#[test]
fn mask_of_each_valid_width() {
    assert_eq!(generate_bit_mask(1), 0b1);
    assert_eq!(generate_bit_mask(2), 0b11);
    assert_eq!(generate_bit_mask(4), 0b1111);
    assert_eq!(generate_bit_mask(8), 0b1111_1111);
}

#[test]
fn mask_is_two_to_the_width_less_one() {
    let mut n: u8 = 0;
    while n < 32 {
        assert_eq!(generate_bit_mask(n) as u64, (1u64 << n) - 1);
        n += 1;
    }
}

#[test]
fn mask_of_no_bits_is_zero() {
    assert_eq!(generate_bit_mask(0), 0);
}

#[test]
fn mask_of_all_bits_is_the_largest_value() {
    assert_eq!(generate_bit_mask(32), u32::MAX);
    assert_eq!(generate_bit_mask(31), 0x7fff_ffff);
    assert_eq!(generate_bit_mask(16), 0xffff);
}

#[test]
fn the_valid_widths_are_the_divisors_of_eight() {
    let mut w: u8 = 0;
    loop {
        let divides: bool = w != 0 && 8 % w == 0;
        assert_eq!(is_valid_width(w), divides);
        if w == u8::MAX {
            break;
        }
        w += 1;
    }
}

#[test]
fn one_two_four_and_eight_are_valid() {
    assert!(is_valid_width(1));
    assert!(is_valid_width(2));
    assert!(is_valid_width(4));
    assert!(is_valid_width(8));
}

#[test]
fn other_widths_are_not_valid() {
    assert!(!is_valid_width(0));
    assert!(!is_valid_width(3));
    assert!(!is_valid_width(5));
    assert!(!is_valid_width(6));
    assert!(!is_valid_width(7));
    assert!(!is_valid_width(9));
    assert!(!is_valid_width(16));
    assert!(!is_valid_width(255));
}
