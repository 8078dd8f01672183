use spartan_sha::ternary::{extend_lsb, pow3, ternary_suffix_is_binary};

#[test]
fn powers_of_three() {
    assert_eq!(pow3(0), 1);
    assert_eq!(pow3(1), 3);
    assert_eq!(pow3(5), 243);
    assert_eq!(pow3(20), 3486784401);
}

#[test]
fn ternary_suffix_checks_every_digit_in_range() {
    // 16 = 1 + 2·3 + 1·9: digits [1, 2, 1].
    assert!(ternary_suffix_is_binary(16, 0, 3));
    // Digits beyond the number are zero.
    assert!(!ternary_suffix_is_binary(16, 0, 4));
    // 3 = [0, 1].
    assert!(!ternary_suffix_is_binary(3, 0, 2));
    assert!(ternary_suffix_is_binary(3, 1, 2));
    // An empty range holds vacuously.
    assert!(ternary_suffix_is_binary(0, 2, 2));
    assert!(ternary_suffix_is_binary(0, 3, 1));
    // 26 = [2, 2, 2].
    assert!(ternary_suffix_is_binary(26, 1, 3));
    assert!(!ternary_suffix_is_binary(26, 1, 4));
}

#[test]
fn extension_uses_low_coordinate_first_u2_layout() {
    // f(x0, x1) = x0 XOR x1 in binary table order with x0 as the low bit.
    let mut values = vec![0i64, 1, 1, 0];
    let mut scratch = vec![0i64; pow3(2)];
    extend_lsb(&mut values, &mut scratch, 2);

    // Ternary digit order per coordinate is [infinity, 0, 1], with x0
    // the least-significant digit.
    assert_eq!(values, vec![-2, 1, -1, 1, 0, 1, -1, 1, 0]);
}

#[test]
fn extension_of_small_tables() {
    let mut values = vec![7i64];
    let mut scratch = Vec::new();
    extend_lsb(&mut values, &mut scratch, 0);
    assert_eq!(values, vec![7]);

    // One coordinate: [slope, f(0), f(1)].
    let mut values = vec![3i64, 10];
    extend_lsb(&mut values, &mut scratch, 1);
    assert_eq!(values, vec![7, 3, 10]);

    // Three coordinates: f(x) = x0 + 2·x1 + 4·x2 is linear, so its slope in
    // coordinate i is 2^i and the binary points read the table back.
    let mut values: Vec<i64> = (0..8).collect();
    let mut scratch = vec![0i64; 5];
    extend_lsb(&mut values, &mut scratch, 3);
    assert_eq!(values.len(), 27);
    for beta in 0..27usize {
        let digits = [beta % 3, beta / 3 % 3, beta / 9 % 3];
        let expected = if digits.iter().filter(|&&d| d == 0).count() > 1 {
            0
        } else if let Some(axis) = digits.iter().position(|&d| d == 0) {
            1 << axis
        } else {
            (digits[0] - 1 + 2 * (digits[1] - 1) + 4 * (digits[2] - 1)) as i64
        };
        assert_eq!(values[beta], expected, "beta = {beta}");
    }
}
