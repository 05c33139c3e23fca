//! Search for a prime modulus `q` whose group order `q - 1` has a known
//! factorization, and for a generator of the multiplicative group modulo `q`.
//!
//! Numbers are machine words (`u64`); products are formed in `u128` so that
//! modular arithmetic never overflows.
//!
//! - `arith`: modular multiplication and exponentiation, bit lengths, and the
//!   split of a number into an odd part and a power of two.
//! - `primes`: the table of small primes and trial division by it.
//! - `fermat`: Fermat's little theorem and the number theory behind it.
//! - `primality`: the sieve, Fermat and Miller-Rabin tests, and `is_prime`.
//! - `factor`: factoring by trial division up to a fixed horizon.
//! - `search`: random primes of a given size and the structured search.
//! - `generator`: the least element that escapes every prime-index subgroup.
//! - `entropy`: the source of random numbers.

pub mod arith;
pub mod entropy;
pub mod factor;
pub mod fermat;
pub mod generator;
pub mod primality;
pub mod primes;
pub mod search;
