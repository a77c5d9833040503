use morton_grid::morton::{encode, group_at};

#[test]
fn origin_has_code_zero() {
    assert_eq!(encode(0, 0), 0);
}

#[test]
fn x_takes_the_odd_bits_and_y_the_even_bits() {
    assert_eq!(encode(1, 0), 2);
    assert_eq!(encode(0, 1), 1);
    assert_eq!(encode(1, 1), 3);
    assert_eq!(encode(2, 0), 8);
    assert_eq!(encode(0, 2), 4);
    assert_eq!(encode(255, 0), 0xAAAA);
    assert_eq!(encode(0, 255), 0x5555);
    assert_eq!(encode(255, 255), 0xFFFF);
}

#[test]
fn far_corner_of_an_eight_by_eight_grid_has_code_63() {
    assert_eq!(encode(7, 7), 63);
}

#[test]
fn a_code_is_neither_of_its_coordinates() {
    assert_eq!(encode(5, 3), 0b100111);
    assert_ne!(encode(5, 3), 5);
    assert_ne!(encode(5, 3), 3);
}

#[test]
fn codes_of_an_eight_by_eight_grid_are_0_to_63_each_once() {
    let mut seen = vec![false; 64];
    for x in 0u8..8 {
        for y in 0u8..8 {
            let code = encode(x, y) as usize;
            assert!(code < 64);
            assert!(!seen[code]);
            seen[code] = true;
        }
    }
    assert!(seen.iter().all(|s| *s));
}

#[test]
fn no_two_pairs_of_bytes_share_a_code() {
    let mut seen = vec![false; 65536];
    for x in 0u8..=255 {
        for y in 0u8..=255 {
            let code = encode(x, y) as usize;
            assert!(!seen[code]);
            seen[code] = true;
        }
    }
}

#[test]
fn each_group_holds_one_bit_of_x_above_one_bit_of_y() {
    for x in 0u8..=255 {
        for y in [0u8, 1, 2, 77, 128, 200, 255] {
            let code = encode(x, y);
            for i in 0u32..8 {
                let expected = ((((x >> i) & 1) << 1) | ((y >> i) & 1)) as u16;
                assert_eq!(group_at(code, 2 * i), expected);
            }
        }
    }
}

#[test]
fn groups_of_a_code() {
    let code = 0b11_01_10u16;
    assert_eq!(group_at(code, 0), 0b10);
    assert_eq!(group_at(code, 2), 0b01);
    assert_eq!(group_at(code, 4), 0b11);
    assert_eq!(group_at(code, 6), 0);
    assert_eq!(group_at(0xFFFF, 14), 3);
    assert_eq!(group_at(0xFFFF, 15), 1);
}

#[test]
fn group_past_the_last_bit_is_zero() {
    assert_eq!(group_at(0xFFFF, 16), 0);
    assert_eq!(group_at(0xFFFF, 31), 0);
    assert_eq!(group_at(0xFFFF, 32), 0);
    assert_eq!(group_at(0xFFFF, u32::MAX), 0);
}
