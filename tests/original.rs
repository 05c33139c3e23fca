use cyclic_group::arith::rewrite;
use cyclic_group::factor::prime_factor;
use cyclic_group::primality::is_prime;
use rand::Rng;

const PRIMES: [u64; 32] = [
    4611686018427388039,
    4611686018427388073,
    4611686018427388081,
    4611686018427388091,
    4611686018427388093,
    4611686018427388097,
    4611686018427388157,
    4611686018427388181,
    4611686018427388207,
    4611686018427388247,
    4611686018427388273,
    4611686018427388279,
    4611686018427388289,
    4611686018427388291,
    4611686018427388319,
    4611686018427388331,
    4611686018427388349,
    4611686018427388361,
    4611686018427388387,
    4611686018427388429,
    4611686018427388447,
    4611686018427388463,
    4611686018427388477,
    4611686018427388513,
    4611686018427388519,
    4611686018427388601,
    4611686018427388609,
    4611686018427388699,
    4611686018427388721,
    4611686018427388787,
    4611686018427388793,
    4611686018427388853,
];

#[test]
fn test_rewrite() {
    let mut rng = rand::thread_rng();
    for _ in 0..1000 {
        let n: u64 = rng.gen_range(1..=u64::MAX);
        let (s, d) = rewrite(n);
        assert_eq!(n as u128, (1u128 << s) * d as u128);
    }
}

#[test]
fn test_primes() {
    for p in PRIMES.iter() {
        assert!(is_prime(*p));
    }
}

#[test]
fn test_prime_factor() {
    let mut rng = rand::thread_rng();
    for _ in 0..100 {
        let r: u64 = rng.gen_range(4..100000);
        let factors = prime_factor(r).unwrap();
        for f in factors.iter() {
            let isp = is_prime(*f);
            if !isp {
                println!("{:?}", f);
            }
            assert!(isp);
        }
        assert_eq!(r, factors.iter().fold(1u64, |p, f| p * f));
    }
}
