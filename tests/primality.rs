use cyclic_group::primality::{fermat_passes, is_prime, little_fermat, miller_rabin, mr_passes, mr_round};
use cyclic_group::primes::simple_test;

#[test]
fn carmichael_561_is_rejected() {
    assert!(!is_prime(561));
    // 561 fools the Fermat test with base 2, not Miller-Rabin.
    assert!(fermat_passes(561, &vec![2]));
    assert!(!mr_passes(561, &vec![2]));
    // Every base coprime to 561 passes the Fermat test.
    assert!(fermat_passes(561, &vec![2, 4, 5, 7, 8, 10, 13, 560]));
    assert!(!fermat_passes(561, &vec![3]));
}

#[test]
fn small_values_are_exact() {
    assert!(!is_prime(0));
    assert!(!is_prime(1));
    assert!(is_prime(2));
    assert!(is_prime(3));
    assert!(!is_prime(4));
    assert!(is_prime(97));
    assert!(!is_prime(91));
    assert!(is_prime(17389));
    assert!(!is_prime(17385));
    assert!(!is_prime(131 * 131));
}

#[test]
fn composites_above_the_shortcut() {
    assert!(!is_prime(1_000_003 * 1_000_033));
    assert!(!is_prime(4611686018427388039 - 2));
    // A product of two primes beyond the sieve.
    assert!(!is_prime(17393 * 17401));
}

#[test]
fn large_primes_are_accepted() {
    assert!(is_prime(1_000_003));
    assert!(is_prime(18446744073709551557));
    assert!(is_prime(2305843009213693951));
}

#[test]
fn fermat_never_rejects_a_prime() {
    for _ in 0..50 {
        assert!(little_fermat(1_000_003, 5));
        assert!(little_fermat(2305843009213693951, 5));
    }
}

#[test]
fn sieve_rejects_a_multiple_of_a_large_sieve_prime() {
    // 17389 is the largest sieve prime; its square passes no sieve.
    assert!(!is_prime(17389 * 17389));
}

#[test]
fn sieve_over_a_short_table() {
    let table = vec![2, 3, 5, 7];
    assert!(simple_test(7, &table));
    assert!(simple_test(121, &table));
    assert!(!simple_test(49, &table));
    assert!(!simple_test(0, &table));
    assert!(simple_test(1, &table));
}

#[test]
fn fermat_with_given_bases() {
    assert!(fermat_passes(13, &vec![2, 3, 12]));
    assert!(!fermat_passes(15, &vec![2]));
    assert!(!fermat_passes(13, &vec![0]));
    assert!(fermat_passes(15, &vec![]));
}

#[test]
fn miller_rabin_round_values() {
    // 560 = 35 * 2^4
    assert!(!mr_round(561, 4, 35, 2));
    // 12 = 3 * 2^2; 5^3 = 125 = 8 mod 13, 8^2 = 64 = 12 mod 13
    assert!(mr_round(13, 2, 3, 5));
    assert!(mr_round(13, 2, 3, 1));
    assert!(mr_round(13, 2, 3, 12));
    assert!(mr_passes(13, &vec![2, 3, 4, 5, 6]));
}

#[test]
fn randomized_rounds_on_a_prime() {
    assert!(miller_rabin(1_000_003, 5));
    assert!(!miller_rabin(1_000_003 * 1_000_033, 5));
    assert!(!little_fermat(1_000_003 * 1_000_033, 5));
}
