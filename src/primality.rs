use crate::arith::{
    lemma_decompose_round_trip, lemma_pow2_succ, mul_mod, odd_part, pow_mod, rewrite, two_exp,
};
use crate::fermat::{lemma_euclid, lemma_fermat_little};
use crate::entropy::random_in;
use crate::primes::{
    first_primes, has_listed_factor, lemma_first_primes_unique, lemma_listed_grows, lemma_sieve_clears, lemma_small_prime,
    no_divisor_up_to, prime, prime_table, simple_test,
};
use vstd::arithmetic::div_mod::*;
use vstd::arithmetic::power::*;
use vstd::prelude::*;

verus! {

/// How many of the smallest primes the sieve divides by.
pub const SIEVE_PRIMES: usize = 2000;

/// Candidates up to this value that pass the sieve are prime.
pub const SMALL_LIMIT: u64 = 17389;

/// Rounds of the Fermat test and of the Miller-Rabin test.
pub const ROUNDS: usize = 5;

/// Every base `b` in `bases` has `b^(n-1) mod n == 1`.
pub open spec fn fermat_ok(n: int, bases: Seq<u64>) -> bool {
    forall|i: int| 0 <= i < bases.len() ==> #[trigger] pow(bases[i] as int, (n - 1) as nat) % n == 1
}

/// `y` squared `j` times modulo `n`.
pub open spec fn square_chain(n: int, y: int, j: nat) -> int
    decreases j,
{
    if j == 0 {
        y
    } else {
        let z = square_chain(n, y, (j - 1) as nat);
        (z * z) % n
    }
}

/// One Miller-Rabin round with base `b`, for `n - 1 == d * 2^s`, `d` odd:
/// `b^d == 1`, or `b^(d * 2^j) == n - 1` for some `j < s`, all modulo `n`.
pub open spec fn mr_round_ok(n: int, s: nat, d: nat, b: int) -> bool {
    let y = pow(b, d) % n;
    y == 1 || y == n - 1 || exists|j: nat| j < s && #[trigger] square_chain(n, y, j) == n - 1
}

/// Every base in `bases` passes a Miller-Rabin round for `n`.
pub open spec fn mr_ok(n: int, bases: Seq<u64>) -> bool {
    forall|i: int|
        0 <= i < bases.len() ==> #[trigger] mr_round_ok(
            n,
            two_exp((n - 1) as nat),
            odd_part((n - 1) as nat),
            bases[i] as int,
        )
}

/// Some `k` bases in `[2, n - 2]` pass the Miller-Rabin test for `n`.
pub open spec fn mr_rounds_pass(n: int, k: nat) -> bool {
    exists|bs: Seq<u64>|
        bs.len() == k && (forall|i: int| 0 <= i < bs.len() ==> 2 <= #[trigger] bs[i] <= n - 2)
            && mr_ok(n, bs)
}

/// No prime of the sieve other than `n` itself divides `n`.
pub open spec fn passes_sieve(n: int) -> bool {
    forall|ps: Seq<u64>|
        first_primes(ps) && ps.len() == SIEVE_PRIMES ==> !#[trigger] has_listed_factor(n, ps)
}

/// What an answer `true` of `is_prime` guarantees of `n`: `n` is prime, or
/// it is above `SMALL_LIMIT`, passes the sieve, and some `ROUNDS` bases in
/// `[2, n - 2]` pass the Miller-Rabin test for it.
pub open spec fn certified(n: int) -> bool {
    ||| prime(n)
    ||| n > SMALL_LIMIT && passes_sieve(n) && mr_rounds_pass(n, ROUNDS as nat)
}

/// The Fermat test of `candidate` with the given bases.
pub fn fermat_passes(candidate: u64, bases: &Vec<u64>) -> (r: bool)
    requires
        candidate >= 1,
    ensures
        r == fermat_ok(candidate as int, bases@),
{
    let e = candidate - 1;
    let mut i: usize = 0;
    while i < bases.len()
        invariant
            candidate >= 1,
            e == candidate - 1,
            i <= bases@.len(),
            fermat_ok(candidate as int, bases@.take(i as int)),
        decreases bases@.len() - i,
    {
        let v = pow_mod(bases[i], e, candidate);
        if v != 1 {
            assert(pow(bases@[i as int] as int, (candidate - 1) as nat) % (candidate as int) != 1);
            return false;
        }
        assert(bases@.take(i as int + 1) =~= bases@.take(i as int).push(bases@[i as int]));
        i = i + 1;
    }
    assert(bases@.take(i as int) =~= bases@);
    true
}

/// The Fermat test with `iters` bases drawn at random from `[1, candidate)`.
/// A prime always passes it.
pub fn little_fermat(candidate: u64, iters: usize) -> (r: bool)
    requires
        candidate >= 2,
    ensures
        exists|bs: Seq<u64>|
            bs.len() == iters && (forall|i: int|
                0 <= i < bs.len() ==> 1 <= #[trigger] bs[i] < candidate) && r == fermat_ok(
                candidate as int,
                bs,
            ),
        prime(candidate as int) ==> r,
{
    let mut bases: Vec<u64> = Vec::new();
    let mut i: usize = 0;
    while i < iters
        invariant
            candidate >= 2,
            i <= iters,
            bases@.len() == i,
            forall|j: int| 0 <= j < bases@.len() ==> 1 <= #[trigger] bases@[j] < candidate,
        decreases iters - i,
    {
        let b = random_in(1, candidate - 1);
        bases.push(b);
        i = i + 1;
    }
    let r = fermat_passes(candidate, &bases);
    proof {
        if prime(candidate as int) {
            lemma_fermat_accepts_primes(candidate as int, bases@);
        }
    }
    assert(bases@.len() == iters && (forall|j: int|
        0 <= j < bases@.len() ==> 1 <= #[trigger] bases@[j] < candidate) && r == fermat_ok(
        candidate as int,
        bases@,
    ));
    r
}

proof fn lemma_chain_stays_one(n: int, y: int, k: nat, j: nat)
    requires
        n > 1,
        k <= j,
        square_chain(n, y, k) == 1,
    ensures
        square_chain(n, y, j) == 1,
    decreases j - k,
{
    if k < j {
        lemma_chain_stays_one(n, y, k, (j - 1) as nat);
        lemma_small_mod(1, n as nat);
    }
}

/// A prime passes the Fermat test with every base in `[1, n)`.
pub proof fn lemma_fermat_accepts_primes(n: int, bases: Seq<u64>)
    requires
        prime(n),
        forall|i: int| 0 <= i < bases.len() ==> 1 <= #[trigger] bases[i] < n,
    ensures
        fermat_ok(n, bases),
{
    assert forall|i: int| 0 <= i < bases.len() implies #[trigger] pow(
        bases[i] as int,
        (n - 1) as nat,
    ) % n == 1 by {
        lemma_small_mod(bases[i] as nat, n as nat);
        lemma_fermat_little(n as nat, bases[i] as nat);
    }
}

/// The only square roots of 1 modulo a prime are 1 and `p - 1`.
proof fn lemma_square_root_of_one(p: int, x: int)
    requires
        prime(p),
        0 <= x < p,
        (x * x) % p == 1,
    ensures
        x == 1 || x == p - 1,
{
    if x == 0 {
        lemma_small_mod(0, p as nat);
    } else if x != 1 {
        lemma_fundamental_div_mod(x * x, p);
        let t = (x * x) / p;
        assert((x - 1) * (x + 1) == t * p) by (nonlinear_arith)
            requires
                x * x == p * t + 1,
        ;
        lemma_mod_multiples_basic(t, p);
        lemma_euclid(p, x - 1, x + 1);
        if x + 1 < p {
            lemma_small_mod((x + 1) as nat, p as nat);
        }
    }
}

/// Squaring `b^d mod n` `j` times gives `b^(d * 2^j) mod n`.
proof fn lemma_chain_is_power(n: int, b: int, d: nat, j: nat)
    requires
        n > 1,
    ensures
        d * pow(2, j) >= 0,
        square_chain(n, pow(b, d) % n, j) == pow(b, (d * pow(2, j)) as nat) % n,
    decreases j,
{
    lemma_pow_positive(2, j);
    assert(d * pow(2, j) >= 0) by (nonlinear_arith)
        requires
            pow(2, j) > 0,
    ;
    if j == 0 {
        lemma_pow0(2);
        assert(d * pow(2, 0) == d);
    } else {
        let i = (j - 1) as nat;
        lemma_chain_is_power(n, b, d, i);
        let e = (d * pow(2, i)) as nat;
        lemma_pow2_succ(i);
        assert(d * pow(2, j) == e + e) by (nonlinear_arith)
            requires
                pow(2, j) == 2 * pow(2, i),
                e == d * pow(2, i),
        ;
        lemma_pow_adds(b, e, e);
        lemma_mul_mod_noop(pow(b, e), pow(b, e), n);
    }
}

proof fn lemma_chain_never_one(n: int, y: int, s: nat, j: nat)
    requires
        prime(n),
        0 <= y < n,
        y != 1,
        j <= s,
        forall|k: nat| k < s ==> #[trigger] square_chain(n, y, k) != n - 1,
    ensures
        square_chain(n, y, j) != 1,
        0 <= square_chain(n, y, j) < n,
    decreases j,
{
    if j > 0 {
        let i = (j - 1) as nat;
        lemma_chain_never_one(n, y, s, i);
        let z = square_chain(n, y, i);
        lemma_mod_bound(z * z, n);
        if (z * z) % n == 1 {
            lemma_square_root_of_one(n, z);
            assert(square_chain(n, y, i) != n - 1);
        }
    }
}

/// A Miller-Rabin round never rejects a prime `n` with a base in `[2, n - 2]`.
pub proof fn lemma_mr_accepts_primes(n: int, b: int)
    requires
        prime(n),
        n >= 3,
        2 <= b <= n - 2,
    ensures
        mr_round_ok(n, two_exp((n - 1) as nat), odd_part((n - 1) as nat), b),
{
    let m = (n - 1) as nat;
    let s = two_exp(m);
    let d = odd_part(m);
    let y = pow(b, d) % n;
    lemma_mod_bound(pow(b, d), n);
    if y != 1 && y != n - 1 {
        if forall|k: nat| k < s ==> #[trigger] square_chain(n, y, k) != n - 1 {
            lemma_chain_never_one(n, y, s, s);
            lemma_chain_is_power(n, b, d, s);
            lemma_decompose_round_trip(m);
            assert(d * pow(2, s) == m);
            lemma_small_mod(b as nat, n as nat);
            lemma_fermat_little(n as nat, b as nat);
        }
    }
}

proof fn lemma_prime_3()
    ensures
        prime(3),
{
    assert forall|d: int| 2 <= d < 3 implies #[trigger] (3int % d) != 0 by {
        if d == 2 {
            assert(3int % 2 == 1);
        }
    }
}

proof fn lemma_prime_11()
    ensures
        prime(11),
{
    assert forall|d: int| 2 <= d < 11 implies #[trigger] (11int % d) != 0 by {
        if d == 2 {
            assert(11int % 2 == 1);
        } else if d == 3 {
            assert(11int % 3 == 2);
        } else if d == 4 {
            assert(11int % 4 == 3);
        } else if d == 5 {
            assert(11int % 5 == 1);
        } else if d == 6 {
            assert(11int % 6 == 5);
        } else if d == 7 {
            assert(11int % 7 == 4);
        } else if d == 8 {
            assert(11int % 8 == 3);
        } else if d == 9 {
            assert(11int % 9 == 2);
        } else if d == 10 {
            assert(11int % 10 == 1);
        }
    }
}

proof fn lemma_prime_17()
    ensures
        prime(17),
{
    assert forall|d: int| 2 <= d < 17 implies #[trigger] (17int % d) != 0 by {
        if d == 2 {
            assert(17int % 2 == 1);
        } else if d == 3 {
            assert(17int % 3 == 2);
        } else if d == 4 {
            assert(17int % 4 == 1);
        } else if d == 5 {
            assert(17int % 5 == 2);
        } else if d == 6 {
            assert(17int % 6 == 5);
        } else if d == 7 {
            assert(17int % 7 == 3);
        } else if d == 8 {
            assert(17int % 8 == 1);
        } else if d == 9 {
            assert(17int % 9 == 8);
        } else if d == 10 {
            assert(17int % 10 == 7);
        } else if d == 11 {
            assert(17int % 11 == 6);
        } else if d == 12 {
            assert(17int % 12 == 5);
        } else if d == 13 {
            assert(17int % 13 == 4);
        } else if d == 14 {
            assert(17int % 14 == 3);
        } else if d == 15 {
            assert(17int % 15 == 2);
        } else if d == 16 {
            assert(17int % 16 == 1);
        }
    }
}

proof fn lemma_power_of_unit(b: int, m: int, e: nat, k: nat)
    requires
        m > 1,
        pow(b, e) % m == 1,
    ensures
        pow(b, e * k) % m == 1,
{
    lemma_pow_multiplies(b, e, k);
    lemma_pow_mod_noop(pow(b, e), k, m);
    lemma1_pow(k);
    lemma_small_mod(1, m as nat);
}

/// 561 = 3 * 11 * 17 is composite, yet every base coprime to it passes
/// the Fermat test: the blind spot that the Miller-Rabin stage closes.
pub proof fn lemma_carmichael_561(b: int)
    requires
        b >= 0,
        b % 3 != 0,
        b % 11 != 0,
        b % 17 != 0,
    ensures
        !prime(561),
        pow(b, 560) % 561 == 1,
{
    assert(561int % 3 == 0);
    lemma_prime_3();
    lemma_prime_11();
    lemma_prime_17();
    lemma_fermat_little(3, b as nat);
    lemma_fermat_little(11, b as nat);
    lemma_fermat_little(17, b as nat);
    lemma_power_of_unit(b, 3, 2, 280);
    lemma_power_of_unit(b, 11, 10, 56);
    lemma_power_of_unit(b, 17, 16, 35);
    lemma_pow_positive(b, 560);
    let x = pow(b, 560) - 1;
    lemma_sub_mod_noop(pow(b, 560), 1, 3);
    lemma_sub_mod_noop(pow(b, 560), 1, 11);
    lemma_sub_mod_noop(pow(b, 560), 1, 17);
    lemma_small_mod(1, 3);
    lemma_small_mod(1, 11);
    lemma_small_mod(1, 17);
    lemma_small_mod(0, 3);
    lemma_small_mod(0, 11);
    lemma_small_mod(0, 17);
    assert(x % 3 == 0 && x % 11 == 0 && x % 17 == 0);
    lemma_fundamental_div_mod(x, 3);
    let a = x / 3;
    assert((3 * a) % 11 == 0);
    lemma_euclid(11, 3, a);
    lemma_fundamental_div_mod(a, 11);
    let c = a / 11;
    assert(x == 33 * c);
    crate::factor::lemma_euclid_product(17, 33, c);
    lemma_fundamental_div_mod(c, 17);
    let e = c / 17;
    assert(x == e * 561);
    lemma_mod_multiples_vanish(e, 1, 561);
    lemma_small_mod(1, 561);
    assert(pow(b, 560) == 1 + e * 561);
    assert((1 + 561 * e) % 561 == 1);
}

/// One Miller-Rabin round for `candidate - 1 == d * 2^s` with base `b`.
pub fn mr_round(candidate: u64, s: u32, d: u64, b: u64) -> (r: bool)
    requires
        candidate >= 3,
    ensures
        r == mr_round_ok(candidate as int, s as nat, d as nat, b as int),
{
    let n = candidate;
    let mut y = pow_mod(b, d, n);
    let ghost y0 = y as int;
    if y == 1 || y == n - 1 {
        return true;
    }
    let mut k: u32 = 1;
    while k < s
        invariant
            n == candidate,
            n >= 3,
            1 <= k,
            y < n,
            y as int == square_chain(n as int, y0, (k - 1) as nat),
            y0 != 1,
            y0 != n - 1,
            y0 == pow(b as int, d as nat) % (n as int),
            forall|j: nat| j < k ==> #[trigger] square_chain(n as int, y0, j) != n - 1,
        decreases s - k,
    {
        y = mul_mod(y, y, n);
        assert(y as int == square_chain(n as int, y0, k as nat));
        if y == 1 {
            assert forall|j: nat| j < s implies #[trigger] square_chain(n as int, y0, j) != n - 1 by {
                if j >= k {
                    lemma_chain_stays_one(n as int, y0, k as nat, j);
                }
            }
            return false;
        }
        if y == n - 1 {
            assert(square_chain(n as int, y0, k as nat) == n - 1);
            return true;
        }
        k = k + 1;
    }
    assert forall|j: nat| j < s implies #[trigger] square_chain(n as int, y0, j) != n - 1 by {
        if j >= k {
            assert(j < s);
        }
    }
    false
}

/// The Miller-Rabin test of `candidate` with the given bases.
pub fn mr_passes(candidate: u64, bases: &Vec<u64>) -> (r: bool)
    requires
        candidate >= 3,
    ensures
        r == mr_ok(candidate as int, bases@),
{
    let (s, d) = rewrite(candidate - 1);
    let mut i: usize = 0;
    while i < bases.len()
        invariant
            candidate >= 3,
            s as nat == two_exp((candidate - 1) as nat),
            d as nat == odd_part((candidate - 1) as nat),
            i <= bases@.len(),
            mr_ok(candidate as int, bases@.take(i as int)),
        decreases bases@.len() - i,
    {
        if !mr_round(candidate, s, d, bases[i]) {
            assert(!mr_round_ok(candidate as int, s as nat, d as nat, bases@[i as int] as int));
            return false;
        }
        assert(bases@.take(i as int + 1) =~= bases@.take(i as int).push(bases@[i as int]));
        i = i + 1;
    }
    assert(bases@.take(i as int) =~= bases@);
    true
}

/// The Miller-Rabin test with `limit` bases drawn at random from
/// `[2, candidate - 2]`.
pub fn miller_rabin(candidate: u64, limit: usize) -> (r: bool)
    requires
        candidate >= 4,
    ensures
        exists|bs: Seq<u64>|
            bs.len() == limit && (forall|i: int| 0 <= i < bs.len() ==> 2 <= #[trigger] bs[i] <= candidate - 2)
                && r == mr_ok(candidate as int, bs),
        prime(candidate as int) ==> r,
{
    let mut bases: Vec<u64> = Vec::new();
    let mut i: usize = 0;
    while i < limit
        invariant
            candidate >= 4,
            i <= limit,
            bases@.len() == i,
            forall|j: int| 0 <= j < bases@.len() ==> 2 <= #[trigger] bases@[j] <= candidate - 2,
        decreases limit - i,
    {
        let b = random_in(2, candidate - 2);
        bases.push(b);
        i = i + 1;
    }
    let r = mr_passes(candidate, &bases);
    proof {
        if prime(candidate as int) {
            assert forall|i: int| 0 <= i < bases@.len() implies #[trigger] mr_round_ok(
                candidate as int,
                two_exp((candidate - 1) as nat),
                odd_part((candidate - 1) as nat),
                bases@[i] as int,
            ) by {
                lemma_mr_accepts_primes(candidate as int, bases@[i] as int);
            }
        }
    }
    assert(bases@.len() == limit && (forall|j: int| 0 <= j < bases@.len() ==> 2 <= #[trigger] bases@[j] <= candidate - 2)
        && r == mr_ok(candidate as int, bases@));
    r
}

proof fn lemma_sieve_verdict(n: int, ps: Seq<u64>)
    requires
        first_primes(ps),
        ps.len() == SIEVE_PRIMES,
        n >= 0,
    ensures
        !has_listed_factor(n, ps) && n >= 2 ==> no_divisor_up_to(n, SIEVE_PRIMES as int + 1),
        !has_listed_factor(n, ps) && 2 <= n <= SMALL_LIMIT ==> prime(n),
        n == 0 ==> has_listed_factor(n, ps),
        n == 1 ==> !has_listed_factor(n, ps),
        prime(n) ==> !has_listed_factor(n, ps),
{
    let last = ps[ps.len() - 1] as int;
    lemma_listed_grows(ps, ps.len() - 1);
    if !has_listed_factor(n, ps) && n >= 2 {
        lemma_sieve_clears(n, ps);
        assert forall|d: int| 2 <= d <= SIEVE_PRIMES as int + 1 && d < n implies #[trigger] (n % d)
            != 0 by {
            assert(d <= last);
        }
        if n <= SMALL_LIMIT {
            lemma_small_prime(n, SIEVE_PRIMES as int + 1);
        }
    }
    if n == 1 {
        assert forall|i: int| 0 <= i < ps.len() && ps[i] != n implies n % (
        #[trigger] ps[i] as int) != 0 by {
            assert(prime(ps[i] as int));
            lemma_small_mod(1, ps[i] as nat);
        }
    }
    if n == 0 {
        assert(ps[0] != 0 && 0int % (ps[0] as int) == 0);
    }
    if prime(n) {
        assert forall|i: int| 0 <= i < ps.len() && ps[i] != n implies n % (
        #[trigger] ps[i] as int) != 0 by {
            assert(prime(ps[i] as int));
            if ps[i] < n {
            } else {
                lemma_small_mod(n as nat, ps[i] as nat);
            }
        }
    }
}

proof fn lemma_passes_sieve(n: int, table: Seq<u64>)
    requires
        first_primes(table),
        table.len() == SIEVE_PRIMES,
    ensures
        passes_sieve(n) == !has_listed_factor(n, table),
{
    assert forall|ps: Seq<u64>| first_primes(ps) && ps.len() == SIEVE_PRIMES implies #[trigger] has_listed_factor(
        n,
        ps,
    ) == has_listed_factor(n, table) by {
        lemma_first_primes_unique(ps, table);
    }
}

/// Whether `candidate` is prime, by sieve, small-value shortcut, Fermat test and
/// Miller-Rabin test. A prime is always accepted; up to `SMALL_LIMIT` the
/// answer is exact, above it a `true` is probabilistic.
pub fn is_prime(candidate: u64) -> (r: bool)
    ensures
        candidate <= SMALL_LIMIT ==> r == prime(candidate as int),
        prime(candidate as int) ==> r,
        r ==> certified(candidate as int),
        !passes_sieve(candidate as int) ==> !r,
{
    if candidate < 2 {
        return false;
    }
    let table = prime_table(SIEVE_PRIMES);
    let sieved = simple_test(candidate, &table);
    proof {
        lemma_sieve_verdict(candidate as int, table@);
        lemma_passes_sieve(candidate as int, table@);
    }
    if !sieved {
        return false;
    }
    if candidate <= SMALL_LIMIT {
        return true;
    }
    if !little_fermat(candidate, ROUNDS) {
        return false;
    }
    if !miller_rabin(candidate, ROUNDS) {
        return false;
    }
    true
}

} // verus!
