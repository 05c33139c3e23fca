use cyclic_group::factor::{prime_factor, FactorError};
use cyclic_group::generator::{dedup_factors, escapes_all, find_gen};
use cyclic_group::primality::is_prime;
use cyclic_group::search::{find_prime, gen_prime, odd_candidate, SearchError};

#[test]
fn factor_360() {
    let mut fs = prime_factor(360).unwrap();
    fs.sort();
    assert_eq!(fs, vec![2, 2, 2, 3, 3, 5]);
    assert_eq!(fs.iter().product::<u64>(), 360);
}

#[test]
fn factor_errors_and_edges() {
    assert_eq!(prime_factor(0), Err(FactorError::NotPositive));
    assert_eq!(prime_factor(1), Ok(vec![]));
    assert_eq!(prime_factor(99991), Ok(vec![99991]));
    assert_eq!(prime_factor(224737), Ok(vec![224737]));
    assert_eq!(prime_factor(2 * 3 * 224737), Ok(vec![2, 3, 224737]));
    // 1000003 is a prime beyond the trial-division horizon.
    assert_eq!(prime_factor(1_000_003), Err(FactorError::OutsideHorizon));
    assert_eq!(prime_factor(2 * 1_000_003), Err(FactorError::OutsideHorizon));
}

#[test]
fn generator_of_seven() {
    assert_eq!(find_gen(7, vec![2, 3]), Some(3));
    assert!(!escapes_all(7, &vec![2, 3], 2));
    assert!(escapes_all(7, &vec![2, 3], 3));
}

#[test]
fn generator_with_repeated_factors() {
    assert_eq!(find_gen(7, vec![2, 3, 3, 2]), Some(3));
    assert_eq!(find_gen(23, vec![2, 11]), Some(5));
    assert_eq!(find_gen(3, vec![2]), Some(2));
    assert_eq!(find_gen(2, vec![]), None);
}

#[test]
fn generator_has_full_order() {
    let q = 1_000_003u64;
    let factors = prime_factor(q - 1).unwrap();
    let g = find_gen(q, factors.clone()).unwrap();
    assert_eq!(cyclic_group::arith::pow_mod(g, q - 1, q), 1);
    for f in factors.iter() {
        assert_ne!(cyclic_group::arith::pow_mod(g, (q - 1) / f, q), 1);
    }
    assert_eq!(g, 2);
}

#[test]
fn dedup_keeps_first_occurrences() {
    assert_eq!(dedup_factors(&vec![3, 2, 3, 5, 2]), vec![3, 2, 5]);
    assert_eq!(dedup_factors(&vec![]), Vec::<u64>::new());
}

#[test]
fn odd_candidate_sets_both_ends() {
    assert_eq!(odd_candidate(8, 0), 129);
    assert_eq!(odd_candidate(8, 127), 255);
    assert_eq!(odd_candidate(2, 0), 3);
    assert_eq!(odd_candidate(64, 0), (1u64 << 63) + 1);
}

#[test]
fn gen_prime_has_exact_bits() {
    let p = gen_prime(16, 10000).unwrap();
    assert!(p >= 1 << 15 && p < 1 << 16);
    assert_eq!(p % 2, 1);
    assert!(is_prime(p));
    assert_eq!(gen_prime(16, 0), Err(SearchError::Exhausted));
}

#[test]
fn gen_prime_edges() {
    assert_eq!(gen_prime(1, 10), Err(SearchError::InvalidInput));
    assert_eq!(gen_prime(0, 10), Err(SearchError::InvalidInput));
    assert_eq!(gen_prime(2, 1), Ok(3));
    let p = gen_prime(3, 1).unwrap();
    assert!(p == 5 || p == 7);
}

#[test]
fn find_prime_refuses_bad_input() {
    assert_eq!(find_prime(50, 0, 10), Err(SearchError::InvalidInput));
    assert_eq!(find_prime(30, 1 << 21, 10), Err(SearchError::InvalidInput));
    assert_eq!(find_prime(8, 1, 10), Err(SearchError::InvalidInput));
    assert_eq!(find_prime(50, 20155392, 0), Err(SearchError::Exhausted));
}

#[test]
fn find_prime_reports_a_rough_order_divisor() {
    // 1000003 lies beyond the trial-division horizon.
    assert_eq!(
        find_prime(40, 1_000_003, 1000),
        Err(SearchError::Factor(FactorError::OutsideHorizon))
    );
}

#[test]
fn find_prime_structure() {
    let d: u64 = (1 << 10) * 19683;
    let (q, fs) = find_prime(50, d, 1000).unwrap();
    assert!(is_prime(q));
    assert_eq!((q - 1) % d, 0);
    assert_eq!(fs.iter().product::<u64>(), q - 1);
    let p = fs[0];
    assert!(p >= 1 << 17 && p < 1 << 18);
    assert!(q - 1 >= 1 << 48 && q - 1 < 1 << 51);
    let mut tail = prime_factor((q - 1) / p).unwrap();
    tail.sort();
    assert_eq!(&fs[1..], &tail[..]);
    let i = (q - 1) / (p * d);
    assert!((128..256).contains(&i));
    for f in fs.iter() {
        assert!(is_prime(*f));
    }
    let g = find_gen(q, fs).unwrap();
    assert!(g >= 2 && g < q - 1);
    assert_eq!(cyclic_group::arith::pow_mod(g, q - 1, q), 1);
}
