use crate::primes::prime;
use vstd::arithmetic::div_mod::*;
use vstd::arithmetic::mul::*;
use vstd::arithmetic::power::*;
use vstd::prelude::*;

verus! {

/// The binomial coefficient `n choose k`, by Pascal's rule.
pub open spec fn binom(n: nat, k: nat) -> nat
    decreases n,
{
    if k == 0 {
        1
    } else if n == 0 {
        0
    } else {
        binom((n - 1) as nat, (k - 1) as nat) + binom((n - 1) as nat, k)
    }
}

/// Euclid's lemma for a factor below the prime: `p | k * m` and
/// `0 < k < p` give `p | m`.
pub proof fn lemma_euclid(p: int, k: int, m: int)
    requires
        prime(p),
        0 < k < p,
        (k * m) % p == 0,
    ensures
        m % p == 0,
    decreases k,
{
    if k > 1 {
        let q = p / k;
        let r = p % k;
        lemma_fundamental_div_mod(p, k);
        assert(r != 0);
        assert(0 < r < k);
        assert(r * m == p * m - q * (k * m)) by (nonlinear_arith)
            requires
                p == k * q + r,
        ;
        lemma_fundamental_div_mod(k * m, p);
        let t = (k * m) / p;
        assert(r * m == p * (m - q * t)) by (nonlinear_arith)
            requires
                r * m == p * m - q * (k * m),
                k * m == p * t + 0,
        ;
        lemma_mod_multiples_basic(m - q * t, p);
        assert((m - q * t) * p == p * (m - q * t)) by (nonlinear_arith);
        lemma_euclid(p, r, m);
    } else {
        assert(k * m == m) by (nonlinear_arith)
            requires
                k == 1,
        ;
    }
}

/// `k * binom(n, k) == n * binom(n - 1, k - 1)`.
proof fn lemma_absorption(n: nat, k: nat)
    requires
        n >= 1,
        k >= 1,
    ensures
        k * binom(n, k) == n * binom((n - 1) as nat, (k - 1) as nat),
    decreases n,
{
    if k == 1 {
        lemma_binom_one(n);
        assert(binom((n - 1) as nat, 0) == 1);
        assert(1 * binom(n, 1) == n * 1) by (nonlinear_arith)
            requires
                binom(n, 1) == n,
        ;
    } else if n == 1 {
        assert(binom(0, (k - 1) as nat) == 0);
        assert(binom(0, k) == 0);
        assert(binom(1, k) == binom(0, (k - 1) as nat) + binom(0, k));
        assert(k * binom(n, k) == 0) by (nonlinear_arith)
            requires
                binom(n, k) == 0,
        ;
        assert(n * binom((n - 1) as nat, (k - 1) as nat) == 0) by (nonlinear_arith)
            requires
                binom((n - 1) as nat, (k - 1) as nat) == 0,
        ;
    } else {
        lemma_absorption((n - 1) as nat, k);
        lemma_absorption((n - 1) as nat, (k - 1) as nat);
        let a = binom((n - 2) as nat, (k - 2) as nat);
        let b = binom((n - 2) as nat, (k - 1) as nat);
        let c = binom((n - 1) as nat, (k - 1) as nat);
        let d = binom((n - 1) as nat, k);
        assert(binom(n, k) == c + d);
        assert(c == a + b);
        assert(k * d == (n - 1) * b);
        assert((k - 1) * c == (n - 1) * a);
        assert(k * (c + d) == n * c) by (nonlinear_arith)
            requires
                k * d == (n - 1) * b,
                (k - 1) * c == (n - 1) * a,
                c == a + b,
        ;
    }
}

proof fn lemma_binom_one(n: nat)
    ensures
        binom(n, 1) == n,
    decreases n,
{
    if n > 0 {
        lemma_binom_one((n - 1) as nat);
        assert(binom((n - 1) as nat, 0) == 1);
    }
}

proof fn lemma_binom_zero_above(n: nat, k: nat)
    requires
        k > n,
    ensures
        binom(n, k) == 0,
    decreases n,
{
    if n > 0 {
        lemma_binom_zero_above((n - 1) as nat, (k - 1) as nat);
        lemma_binom_zero_above((n - 1) as nat, k);
    }
}

proof fn lemma_binom_diag(n: nat)
    ensures
        binom(n, n) == 1,
    decreases n,
{
    if n > 0 {
        lemma_binom_diag((n - 1) as nat);
        lemma_binom_zero_above((n - 1) as nat, n);
    }
}

/// A prime divides each binomial coefficient strictly inside its row.
proof fn lemma_prime_divides_binom(p: nat, k: nat)
    requires
        prime(p as int),
        0 < k < p,
    ensures
        (binom(p, k) as int) % (p as int) == 0,
{
    lemma_absorption(p, k);
    let c = binom((p - 1) as nat, (k - 1) as nat);
    lemma_mod_multiples_basic(c as int, p as int);
    assert(c * p == p * c) by (nonlinear_arith);
    lemma_euclid(p as int, k as int, binom(p, k) as int);
}

/// `sum_{j <= k} binom(n, j) * x^j`.
pub open spec fn binom_sum(n: nat, x: int, k: nat) -> int
    decreases k,
{
    if k == 0 {
        1
    } else {
        binom_sum(n, x, (k - 1) as nat) + binom(n, k) * pow(x, k)
    }
}

proof fn lemma_binom_sum_step(n: nat, x: int, k: nat)
    ensures
        binom_sum(n + 1, x, k + 1) == binom_sum(n, x, k + 1) + x * binom_sum(n, x, k),
    decreases k,
{
    reveal(pow);
    if k == 0 {
        assert(binom((n + 1) as nat, 1) == binom(n, 0) + binom(n, 1));
        lemma_pow1(x);
        assert(binom(n, 0) == 1);
        assert(binom_sum((n + 1) as nat, x, 0) == 1);
        assert(binom_sum(n, x, 0) == 1);
        assert(binom_sum((n + 1) as nat, x, 1) == 1 + binom((n + 1) as nat, 1) * x);
        assert(binom_sum(n, x, 1) == 1 + binom(n, 1) * x);
        assert(1 + (binom(n, 0) + binom(n, 1)) * x == 1 + binom(n, 1) * x + x * 1)
            by (nonlinear_arith)
            requires
                binom(n, 0) == 1,
        ;
    } else {
        lemma_binom_sum_step(n, x, (k - 1) as nat);
        let b1 = binom(n, k);
        let b2 = binom(n, k + 1);
        assert(binom((n + 1) as nat, k + 1) == b1 + b2);
        assert(pow(x, k + 1) == x * pow(x, k));
        assert((b1 + b2) * pow(x, k + 1) == b2 * pow(x, k + 1) + x * (b1 * pow(x, k)))
            by (nonlinear_arith)
            requires
                pow(x, k + 1) == x * pow(x, k),
        ;
        assert(x * binom_sum(n, x, k) == x * binom_sum(n, x, (k - 1) as nat) + x * (b1 * pow(
            x,
            k,
        ))) by (nonlinear_arith)
            requires
                binom_sum(n, x, k) == binom_sum(n, x, (k - 1) as nat) + b1 * pow(x, k),
        ;
    }
}

/// The binomial theorem for `(x + 1)^n`.
proof fn lemma_binomial(n: nat, x: int)
    ensures
        binom_sum(n, x, n) == pow(x + 1, n),
    decreases n,
{
    reveal(pow);
    if n > 0 {
        let m = (n - 1) as nat;
        lemma_binomial(m, x);
        lemma_binom_sum_step(m, x, m);
        lemma_binom_zero_above(m, n);
        assert(binom_sum(m, x, n) == binom_sum(m, x, m));
        assert(binom_sum(n, x, n) == (x + 1) * pow(x + 1, m)) by (nonlinear_arith)
            requires
                binom_sum(n, x, n) == binom_sum(m, x, m) + x * binom_sum(m, x, m),
                binom_sum(m, x, m) == pow(x + 1, m),
        ;
    }
}

proof fn lemma_binom_sum_inner(p: nat, x: int, k: nat)
    requires
        prime(p as int),
        k < p,
    ensures
        binom_sum(p, x, k) % (p as int) == 1,
    decreases k,
{
    if k == 0 {
        lemma_small_mod(1, p);
    } else {
        lemma_binom_sum_inner(p, x, (k - 1) as nat);
        lemma_prime_divides_binom(p, k);
        let b = binom(p, k) as int;
        lemma_fundamental_div_mod(b, p as int);
        let t = b / (p as int);
        assert(b * pow(x, k) == (t * pow(x, k)) * p) by (nonlinear_arith)
            requires
                b == p * t + 0,
        ;
        lemma_mod_multiples_vanish(t * pow(x, k), binom_sum(p, x, (k - 1) as nat), p as int);
        assert(binom_sum(p, x, k) == binom_sum(p, x, (k - 1) as nat) + (t * pow(x, k)) * p);
        assert(p * (t * pow(x, k)) == (t * pow(x, k)) * p) by (nonlinear_arith);
    }
}

/// `x^p` and `x` agree modulo a prime `p`, for every `x >= 0`.
pub proof fn lemma_pow_prime(p: nat, x: nat)
    requires
        prime(p as int),
    ensures
        pow(x as int, p) % (p as int) == (x as int) % (p as int),
    decreases x,
{
    let pi = p as int;
    if x == 0 {
        lemma0_pow(p);
    } else {
        let y = (x - 1) as nat;
        lemma_pow_prime(p, y);
        lemma_binomial(p, y as int);
        lemma_binom_sum_inner(p, y as int, (p - 1) as nat);
        lemma_binom_diag(p);
        let s = binom_sum(p, y as int, (p - 1) as nat);
        assert(pow(x as int, p) == s + pow(y as int, p));
        lemma_add_mod_noop(s, pow(y as int, p), pi);
        lemma_add_mod_noop(1, y as int, pi);
        lemma_small_mod(1, p);
    }
}

/// Fermat's little theorem: `g^(p - 1) mod p == 1` for a prime `p` that
/// does not divide `g`.
pub proof fn lemma_fermat_little(p: nat, g: nat)
    requires
        prime(p as int),
        (g as int) % (p as int) != 0,
    ensures
        pow(g as int, (p - 1) as nat) % (p as int) == 1,
{
    let pi = p as int;
    let e = pow(g as int, (p - 1) as nat);
    lemma_pow_prime(p, g);
    lemma_pow_adds(g as int, 1, (p - 1) as nat);
    lemma_pow1(g as int);
    assert(pow(g as int, p) == g * e);
    // p divides g * (e - 1)
    lemma_sub_mod_noop(g * e, g as int, pi);
    assert((g * e - g) % pi == 0) by {
        lemma_mod_self_0(pi);
        assert(((g * e) % pi - (g as int) % pi) == 0);
        lemma_small_mod(0, p);
    }
    lemma_fundamental_div_mod(g as int, pi);
    assert(g * e - g == (g as int % pi) * (e - 1) + pi * ((g as int / pi) * (e - 1)))
        by (nonlinear_arith)
        requires
            g as int == pi * (g as int / pi) + g as int % pi,
    ;
    let r = g as int % pi;
    let w = (g as int / pi) * (e - 1);
    lemma_mod_multiples_vanish(w, r * (e - 1), pi);
    assert((r * (e - 1) + pi * w) % pi == (r * (e - 1)) % pi);
    lemma_mod_bound(g as int, pi);
    lemma_euclid(pi, r, e - 1);
    lemma_pow_positive(g as int, (p - 1) as nat);
    lemma_add_mod_noop(e - 1, 1, pi);
    lemma_small_mod(1, p);
}

} // verus!
