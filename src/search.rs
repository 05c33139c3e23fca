use crate::arith::{bit_length, lemma_pow2_succ, power_of_two};
use crate::entropy::random_in;
use crate::factor::{
    lemma_product_prepend, nondecreasing, prime_factor, product, within_horizon, FactorError,
};
use crate::primality::{certified, is_prime};
use crate::primes::prime;
use vstd::arithmetic::div_mod::*;
use vstd::arithmetic::power::*;
use vstd::arithmetic::power2::*;
use vstd::prelude::*;

verus! {

/// The smallest multiplier of the structured search.
pub const WINDOW_START: u64 = 128;

/// One past the largest multiplier of the structured search.
pub const WINDOW_END: u64 = 256;

/// Why a search gave up.
#[derive(Debug, Clone, Copy, PartialEq, Eq, Structural)]
pub enum SearchError {
    /// Every allowed attempt was spent without success.
    Exhausted,
    /// The requested size or order divisor cannot be met.
    InvalidInput,
    /// The known part of the group order could not be factored.
    Factor(FactorError),
}

/// `p` has exactly `bits` bits.
pub open spec fn has_bits(p: int, bits: nat) -> bool {
    bits >= 1 && pow(2, (bits - 1) as nat) <= p < pow(2, bits)
}

/// An odd number of exactly `bits` bits built from `r`: the top bit and the
/// lowest bit are set, the others come from `r`.
pub fn odd_candidate(bits: u32, r: u64) -> (c: u64)
    requires
        2 <= bits <= 64,
        (r as int) < pow(2, (bits - 1) as nat),
    ensures
        has_bits(c as int, bits as nat),
        c % 2 == 1,
        c as int == pow(2, (bits - 1) as nat) + 2 * (r as int / 2) + 1,
{
    let top = power_of_two(bits - 1);
    proof {
        lemma_pow2_succ((bits - 1) as nat);
        lemma_pow2_succ((bits - 2) as nat);
        lemma_pow_increases(2, bits as nat, 64);
        lemma2_to64();
        lemma_pow2(64);
    }
    top + 2 * (r / 2) + 1
}

proof fn lemma_small_odd_is_prime(c: int)
    requires
        2 <= c < 8,
        c % 2 == 1,
    ensures
        prime(c),
{
    assert(c == 3 || c == 5 || c == 7);
    assert forall|d: int| 2 <= d < c implies #[trigger] (c % d) != 0 by {
        if d == 2 {
            assert(c % 2 == 1);
        } else if d == 3 {
            assert(c % 3 != 0);
        } else if d == 4 {
            assert(c % 4 != 0);
        } else if d == 5 {
            assert(7int % 5 == 2);
        } else {
            assert(d == 6);
            assert(7int % 6 == 1);
        }
    }
}

/// A random odd number of exactly `bits` bits, tested until `is_prime`
/// accepts one, at most `max_attempts` times. Fewer than 2 bits cannot hold
/// a prime and are refused.
pub fn gen_prime(bits: u32, max_attempts: u64) -> (r: Result<u64, SearchError>)
    requires
        bits <= 64,
    ensures
        r matches Ok(p) ==> has_bits(p as int, bits as nat) && p % 2 == 1 && certified(p as int),
        (r == Err::<u64, SearchError>(SearchError::InvalidInput)) <==> bits < 2,
        r matches Err(e) ==> e == SearchError::Exhausted || e == SearchError::InvalidInput,
        bits >= 2 && max_attempts == 0 ==> r == Err::<u64, SearchError>(SearchError::Exhausted),
        2 <= bits <= 3 && max_attempts >= 1 ==> r is Ok,
{
    if bits < 2 {
        return Err(SearchError::InvalidInput);
    }
    let top = power_of_two(bits - 1);
    let mut attempt: u64 = 0;
    while attempt < max_attempts
        invariant
            2 <= bits <= 64,
            top as int == pow(2, (bits - 1) as nat),
            bits <= 3 ==> attempt == 0,
        decreases max_attempts - attempt,
    {
        proof {
            lemma_pow_positive(2, (bits - 1) as nat);
        }
        let low = random_in(0, top - 1);
        let c = odd_candidate(bits, low);
        proof {
            if bits <= 3 {
                lemma2_to64();
                lemma_pow2(3);
                lemma_pow2(2);
                lemma_pow_increases(2, bits as nat, 3);
                lemma_small_odd_is_prime(c as int);
            }
        }
        if is_prime(c) {
            return Ok(c);
        }
        attempt = attempt + 1;
    }
    Err(SearchError::Exhausted)
}

/// `s` is the factor list `prime_factor` gives for `m`: primes of the
/// horizon, in increasing order, whose product is `m`.
pub open spec fn factored(m: int, s: Seq<u64>) -> bool {
    &&& product(s) == m
    &&& forall|j: int| 0 <= j < s.len() ==> prime(#[trigger] s[j] as int)
    &&& nondecreasing(s)
    &&& forall|j: int| 0 <= j < s.len() ==> within_horizon(#[trigger] s[j] as int)
}

/// Every prime factor of `m` is among the first `FACTOR_HORIZON` primes.
pub open spec fn smooth(m: int) -> bool {
    !exists|f: int| prime(f) && m % f == 0 && !within_horizon(f)
}

/// `q - 1 == i * p * d` for a multiplier `i` of the search window, and
/// `tail` is the factor list of `i * d`.
pub open spec fn in_window(q: int, p: int, d: int, tail: Seq<u64>) -> bool {
    exists|i: int|
        WINDOW_START <= i < WINDOW_END && #[trigger] (i * p * d) == q - 1 && factored(i * d, tail)
}

/// The order divisor `d` leaves at least two bits of a `bits`-bit search to
/// the base prime.
pub open spec fn search_input_ok(bits: int, d: int) -> bool {
    d >= 1 && bits >= 9 && d < pow(2, (bits - 9) as nat)
}

/// `p` followed by the prime factors of `m` in increasing order; an error
/// exactly when `m` has a prime factor beyond the horizon.
pub fn prepend_factors(p: u64, m: u64) -> (r: Result<Vec<u64>, SearchError>)
    requires
        m > 0,
    ensures
        r matches Ok(all) ==> all@.len() >= 1 && all@[0] == p && factored(
            m as int,
            all@.drop_first(),
        ),
        r matches Err(e) ==> e == SearchError::Factor(FactorError::OutsideHorizon),
        r is Ok <==> smooth(m as int),
{
    match prime_factor(m) {
        Ok(fs) => {
            let ghost tail = fs@;
            let mut all: Vec<u64> = vec![p];
            let mut rest = fs;
            all.append(&mut rest);
            assert(all@.drop_first() =~= tail);
            Ok(all)
        },
        Err(e) => Err(SearchError::Factor(e)),
    }
}

proof fn lemma_window_bound(i: int, p: int, d: int, pbits: nat, k: nat, bits: nat)
    requires
        0 <= i < 256,
        0 <= p < pow(2, pbits),
        0 <= d < pow(2, k),
        pbits + k + 7 == bits,
        bits <= 62,
    ensures
        0 <= i * p * d < 0x8000_0000_0000_0000,
        i * p * d < pow(2, bits + 1),
        0 <= i * d <= i * p * d || p == 0,
        d >= 1 ==> 0 <= i * p <= i * p * d,
{
    lemma_pow_adds(2, pbits, k);
    lemma_pow_adds(2, pbits + k, 8);
    lemma2_to64();
    lemma_pow2(8);
    lemma_pow_increases(2, bits + 1, 63);
    lemma_pow2_succ(63);
    lemma_pow2(64);
    let a = pow(2, pbits);
    let b = pow(2, k);
    assert(0 <= i * p * d < 256 * a * b) by (nonlinear_arith)
        requires
            0 <= i < 256,
            0 <= p < a,
            0 <= d < b,
    ;
    assert(256 * a * b == pow(2, bits + 1)) by (nonlinear_arith)
        requires
            pow(2, pbits + k) == a * b,
            pow(2, pbits + k + 8) == pow(2, pbits + k) * 256,
            pbits + k + 8 == bits + 1,
    ;
    assert(d >= 1 ==> 0 <= i * p <= i * p * d) by (nonlinear_arith)
        requires
            0 <= i,
            0 <= p,
    ;
    assert(0 <= i * d <= i * p * d || p == 0) by (nonlinear_arith)
        requires
            0 <= i,
            0 <= p,
            0 <= d,
    ;
}

proof fn lemma_window_floor(i: int, p: int, d: int, pbits: nat, k: nat, bits: nat)
    requires
        i >= 128,
        pbits >= 1,
        k >= 1,
        p >= pow(2, (pbits - 1) as nat),
        d >= pow(2, (k - 1) as nat),
        pbits + k + 7 == bits,
    ensures
        i * p * d >= pow(2, (bits - 2) as nat),
{
    let a = pow(2, (pbits - 1) as nat);
    let b = pow(2, (k - 1) as nat);
    lemma_pow_adds(2, (pbits - 1) as nat, (k - 1) as nat);
    lemma_pow_adds(2, (pbits - 1 + k - 1) as nat, 7);
    lemma2_to64();
    lemma_pow2(7);
    lemma_pow_positive(2, (pbits - 1) as nat);
    lemma_pow_positive(2, (k - 1) as nat);
    assert(i * p * d >= 128 * a * b) by (nonlinear_arith)
        requires
            i >= 128,
            p >= a,
            d >= b,
            a > 0,
            b > 0,
    ;
    assert(128 * a * b == pow(2, (bits - 2) as nat)) by (nonlinear_arith)
        requires
            pow(2, (pbits - 1 + k - 1) as nat) == a * b,
            pow(2, (pbits - 1 + k - 1 + 7) as nat) == pow(2, (pbits - 1 + k - 1) as nat) * 128,
            pbits - 1 + k - 1 + 7 == bits - 2,
    ;
}

proof fn lemma_found(q: u64, p: u64, i: u64, d: u64, m: u64, all: Seq<u64>)
    requires
        certified(p as int),
        WINDOW_START <= i < WINDOW_END,
        d >= 1,
        m as int == i as int * d as int,
        q as int == i as int * p as int * d as int + 1,
        all.len() >= 1,
        all[0] == p,
        factored(m as int, all.drop_first()),
    ensures
        (q as int - 1) % (d as int) == 0,
        in_window(q as int, p as int, d as int, all.drop_first()),
        product(all) == q as int - 1,
        forall|j: int| 1 <= j < all.len() ==> prime(#[trigger] all[j] as int),
        forall|j: int| 0 <= j < all.len() ==> certified(#[trigger] all[j] as int),
{
    let tail = all.drop_first();
    lemma_found_product(q, p, i, d, m, all);
    assert(i as int * p as int * d as int == q as int - 1);
    assert(WINDOW_START <= i < WINDOW_END && (i as int * p as int * d as int) == q as int - 1
        && factored(i as int * d as int, tail));
    lemma_mod_multiples_basic(i as int * p as int, d as int);
    lemma_found_primes(all);
}

proof fn lemma_found_product(q: u64, p: u64, i: u64, d: u64, m: u64, all: Seq<u64>)
    requires
        m as int == i as int * d as int,
        q as int == i as int * p as int * d as int + 1,
        all.len() >= 1,
        all[0] == p,
        product(all.drop_first()) == m as int,
    ensures
        product(all) == q as int - 1,
{
    let tail = all.drop_first();
    assert(all =~= seq![p] + tail);
    lemma_product_prepend(p, tail);
    assert(product(all) == q as int - 1) by (nonlinear_arith)
        requires
            product(all) == p as int * product(tail),
            product(tail) == m as int,
            m as int == i as int * d as int,
            q as int == i as int * p as int * d as int + 1,
    ;
}

proof fn lemma_found_primes(all: Seq<u64>)
    requires
        all.len() >= 1,
        certified(all[0] as int),
        forall|j: int| 0 <= j < all.drop_first().len() ==> prime(#[trigger] all.drop_first()[j] as int),
    ensures
        forall|j: int| 1 <= j < all.len() ==> prime(#[trigger] all[j] as int),
        forall|j: int| 0 <= j < all.len() ==> certified(#[trigger] all[j] as int),
{
    let tail = all.drop_first();
    assert forall|j: int| 1 <= j < all.len() implies prime(#[trigger] all[j] as int) by {
        assert(all[j] == tail[j - 1]);
    }
    assert forall|j: int| 0 <= j < all.len() implies certified(#[trigger] all[j] as int) by {
        if j >= 1 {
            assert(prime(all[j] as int));
        }
    }
}

/// Searches a prime `q` with `q - 1 == i * p * order_divisor`, for a random
/// prime `p` of `bits - bit_length(order_divisor) - 7` bits and a multiplier
/// `i` in `[WINDOW_START, WINDOW_END)`. It returns `q` with `p` followed by
/// the prime factors of `i * order_divisor`, whose product is `q - 1`. At
/// most `max_attempts` base primes are drawn, each by at most `max_attempts`
/// candidates. An order divisor of zero, or one too large for `bits`, is
/// refused.
pub fn find_prime(bits: u32, order_divisor: u64, max_attempts: u64) -> (r: Result<
    (u64, Vec<u64>),
    SearchError,
>)
    requires
        bits <= 62,
    ensures
        (r == Err::<(u64, Vec<u64>), SearchError>(SearchError::InvalidInput)) <==> !search_input_ok(
            bits as int,
            order_divisor as int,
        ),
        search_input_ok(bits as int, order_divisor as int) && max_attempts == 0 ==> r == Err::<
            (u64, Vec<u64>),
            SearchError,
        >(SearchError::Exhausted),
        r matches Ok((q, fs)) ==> {
            &&& certified(q as int)
            &&& (q as int - 1) % (order_divisor as int) == 0
            &&& pow(2, (bits - 2) as nat) <= q as int - 1 < pow(2, (bits + 1) as nat)
            &&& fs@.len() >= 1
            &&& fs@[0] % 2 == 1
            &&& exists|k: nat|
                has_bits(order_divisor as int, k) && #[trigger] has_bits(
                    fs@[0] as int,
                    (bits - k - 7) as nat,
                )
            &&& in_window(q as int, fs@[0] as int, order_divisor as int, fs@.drop_first())
            &&& product(fs@) == q as int - 1
            &&& forall|j: int| 0 <= j < fs@.len() ==> certified(#[trigger] fs@[j] as int)
            &&& forall|j: int| 1 <= j < fs@.len() ==> prime(#[trigger] fs@[j] as int)
        },
        r matches Err(e) ==> e == SearchError::Exhausted || e == SearchError::InvalidInput || (e
            == SearchError::Factor(FactorError::OutsideHorizon) && exists|i: int|
            WINDOW_START <= i < WINDOW_END && !smooth(#[trigger] (i * order_divisor as int))),
{
    if order_divisor == 0 {
        return Err(SearchError::InvalidInput);
    }
    let k = bit_length(order_divisor);
    if bits < k + 9 {
        proof {
            if bits >= 9 {
                lemma_pow_increases(2, (bits - 9) as nat, (k - 1) as nat);
            }
        }
        return Err(SearchError::InvalidInput);
    }
    proof {
        lemma_pow_increases(2, k as nat, (bits - 9) as nat);
        lemma_pow0(2);
    }
    let pbits = bits - k - 7;
    let mut attempt: u64 = 0;
    while attempt < max_attempts
        invariant
            bits <= 62,
            1 <= order_divisor,
            k + 9 <= bits,
            k >= 1,
            pbits == bits - k - 7,
            has_bits(order_divisor as int, k as nat),
            search_input_ok(bits as int, order_divisor as int),
        decreases max_attempts - attempt,
    {
        let p = match gen_prime(pbits, max_attempts) {
            Ok(p) => p,
            Err(_) => {
                return Err(SearchError::Exhausted);
            },
        };
        let mut i: u64 = WINDOW_START;
        while i < WINDOW_END
            invariant
                bits <= 62,
                1 <= order_divisor,
                k + 9 <= bits,
                k >= 1,
                pbits == bits - k - 7,
                has_bits(order_divisor as int, k as nat),
                search_input_ok(bits as int, order_divisor as int),
                attempt < max_attempts,
                has_bits(p as int, pbits as nat),
                p % 2 == 1,
                certified(p as int),
                WINDOW_START <= i <= WINDOW_END,
            decreases WINDOW_END - i,
        {
            proof {
                lemma_window_bound(
                    i as int,
                    p as int,
                    order_divisor as int,
                    pbits as nat,
                    k as nat,
                    bits as nat,
                );
                lemma_window_floor(
                    i as int,
                    p as int,
                    order_divisor as int,
                    pbits as nat,
                    k as nat,
                    bits as nat,
                );
            }
            let q = i * p * order_divisor + 1;
            if is_prime(q) {
                let m = i * order_divisor;
                proof {
                    assert(m > 0) by (nonlinear_arith)
                        requires
                            m as int == i as int * order_divisor as int,
                            i >= 128,
                            order_divisor >= 1,
                    ;
                }
                match prepend_factors(p, m) {
                    Ok(all) => {
                        proof {
                            lemma_found(q, p, i, order_divisor, m, all@);
                            assert(has_bits(order_divisor as int, k as nat) && has_bits(
                                all@[0] as int,
                                (bits - k - 7) as nat,
                            ));
                        }
                        return Ok((q, all));
                    },
                    Err(e) => {
                        proof {
                            assert(!smooth(i as int * order_divisor as int));
                        }
                        return Err(e);
                    },
                }
            }
            i = i + 1;
        }
        attempt = attempt + 1;
    }
    Err(SearchError::Exhausted)
}

} // verus!
