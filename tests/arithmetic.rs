use cyclic_group::arith::{bit_length, mul_mod, pow_mod, power_of_two, rewrite};

#[test]
fn pow_mod_small_values() {
    assert_eq!(pow_mod(2, 3, 7), 1);
    assert_eq!(pow_mod(3, 3, 7), 6);
    assert_eq!(pow_mod(3, 2, 7), 2);
    assert_eq!(pow_mod(2, 10, 1000), 24);
    assert_eq!(pow_mod(5, 0, 13), 1);
    assert_eq!(pow_mod(5, 0, 1), 0);
    assert_eq!(pow_mod(0, 0, 13), 1);
    assert_eq!(pow_mod(0, 5, 13), 0);
}

#[test]
fn pow_mod_wide_operands() {
    let m: u64 = 4611686018427388039;
    let b: u64 = u64::MAX;
    let expected = ((b as u128 % m as u128) * (b as u128 % m as u128) % m as u128) as u64;
    assert_eq!(pow_mod(b, 2, m), expected);
    // Fermat's little theorem on a large prime.
    assert_eq!(pow_mod(123456789, m - 1, m), 1);
}

#[test]
fn mul_mod_does_not_overflow() {
    let a = u64::MAX;
    let expected = ((a as u128 * a as u128) % 1_000_000_007u128) as u64;
    assert_eq!(mul_mod(a, a, 1_000_000_007), expected);
    assert_eq!(mul_mod(6, 7, 5), 2);
}

#[test]
fn rewrite_exact_values() {
    assert_eq!(rewrite(40), (3, 5));
    assert_eq!(rewrite(1), (0, 1));
    assert_eq!(rewrite(560), (4, 35));
    assert_eq!(rewrite(1u64 << 63), (63, 1));
    assert_eq!(rewrite(u64::MAX), (0, u64::MAX));
}

#[test]
fn bit_length_edges() {
    assert_eq!(bit_length(0), 0);
    assert_eq!(bit_length(1), 1);
    assert_eq!(bit_length(255), 8);
    assert_eq!(bit_length(256), 9);
    assert_eq!(bit_length(20155392), 25);
    assert_eq!(bit_length(u64::MAX), 64);
}

#[test]
fn power_of_two_values() {
    assert_eq!(power_of_two(0), 1);
    assert_eq!(power_of_two(10), 1024);
    assert_eq!(power_of_two(63), 1u64 << 63);
}
