use vstd::arithmetic::div_mod::*;
use vstd::arithmetic::power::*;
use vstd::arithmetic::power2::*;
use vstd::prelude::*;

verus! {

proof fn lemma_pow_halves(x: int, e: nat)
    ensures
        pow(x, e) == pow(x, e % 2) * pow(x * x, e / 2),
{
    lemma_square_is_pow2(x);
    lemma_pow_multiplies(x, 2, e / 2);
    lemma_pow_adds(x, 2 * (e / 2), e % 2);
    assert(2 * (e / 2) + e % 2 == e);
}

/// `(a * b) % m` computed without overflow.
pub fn mul_mod(a: u64, b: u64, m: u64) -> (r: u64)
    requires
        m > 0,
    ensures
        r as int == (a as int * b as int) % (m as int),
{
    assert((a as int) * (b as int) <= 0xffff_ffff_ffff_ffff * 0xffff_ffff_ffff_ffffint)
        by (nonlinear_arith)
        requires
            a <= 0xffff_ffff_ffff_ffffu64,
            b <= 0xffff_ffff_ffff_ffffu64,
    ;
    let p: u128 = (a as u128) * (b as u128);
    let r: u128 = p % (m as u128);
    assert(r < m);
    r as u64
}

/// Modular exponentiation: `b^e mod m`, by square and multiply.
pub fn pow_mod(b: u64, e: u64, m: u64) -> (r: u64)
    requires
        m > 0,
    ensures
        r as int == pow(b as int, e as nat) % (m as int),
{
    let mi: Ghost<int> = Ghost(m as int);
    let mut result: u64 = 1 % m;
    let mut base: u64 = b % m;
    let mut exp: u64 = e;
    proof {
        lemma_pow_mod_noop(b as int, e as nat, m as int);
        lemma_pow0(base as int);
        lemma_mul_mod_noop_left(1, pow(base as int, e as nat), m as int);
    }
    while exp > 0
        invariant
            m > 0,
            mi@ == m as int,
            result < m,
            base < m,
            (result as int * pow(base as int, exp as nat)) % mi@ == pow(b as int, e as nat) % mi@,
        decreases exp,
    {
        let ghost old_result = result as int;
        let ghost old_base = base as int;
        let ghost old_exp = exp as nat;
        let ghost rest = pow(old_base * old_base, old_exp / 2);
        proof {
            lemma_pow_halves(old_base, old_exp);
            assert(old_result * pow(old_base, old_exp) == (old_result * pow(old_base, old_exp % 2))
                * rest) by (nonlinear_arith)
                requires
                    pow(old_base, old_exp) == pow(old_base, old_exp % 2) * rest,
            ;
        }
        if exp % 2 == 1 {
            result = mul_mod(result, base, m);
            proof {
                lemma_pow1(old_base);
                lemma_mul_mod_noop_left(old_result * old_base, rest, mi@);
            }
        } else {
            proof {
                lemma_pow0(old_base);
            }
        }
        // now (result * rest) % m == target
        base = mul_mod(base, base, m);
        exp = exp / 2;
        proof {
            lemma_pow_mod_noop(old_base * old_base, exp as nat, mi@);
            lemma_mul_mod_noop_right(result as int, pow(old_base * old_base, exp as nat), mi@);
            lemma_mul_mod_noop_right(result as int, pow(base as int, exp as nat), mi@);
        }
    }
    proof {
        lemma_pow0(base as int);
        lemma_small_mod(result as nat, m as nat);
    }
    result
}

pub proof fn lemma_pow2_succ(k: nat)
    ensures
        pow(2, k + 1) == 2 * pow(2, k),
        pow(2, k) > 0,
{
    lemma_pow_adds(2, k, 1);
    lemma_pow1(2);
    lemma_pow_positive(2, k);
}

/// The exponent of 2 in a positive `m`.
pub open spec fn two_exp(m: nat) -> nat
    decreases m,
{
    if m > 0 && m % 2 == 0 {
        1 + two_exp(m / 2)
    } else {
        0
    }
}

/// What is left of a positive `m` once every factor 2 is divided out.
pub open spec fn odd_part(m: nat) -> nat
    decreases m,
{
    if m > 0 && m % 2 == 0 {
        odd_part(m / 2)
    } else {
        m
    }
}

/// Taking a positive `m` apart into its odd part and its power of two and
/// multiplying them back gives `m` again.
pub proof fn lemma_decompose_round_trip(m: nat)
    requires
        m > 0,
    ensures
        odd_part(m) * pow(2, two_exp(m)) == m,
        odd_part(m) % 2 == 1,
    decreases m,
{
    if m % 2 == 0 {
        lemma_decompose_round_trip(m / 2);
        lemma_pow2_succ(two_exp(m / 2));
        assert(odd_part(m) * pow(2, two_exp(m)) == m) by (nonlinear_arith)
            requires
                odd_part(m) == odd_part(m / 2),
                two_exp(m) == 1 + two_exp(m / 2),
                pow(2, two_exp(m / 2) + 1) == 2 * pow(2, two_exp(m / 2)),
                odd_part(m / 2) * pow(2, two_exp(m / 2)) == m / 2,
                m % 2 == 0,
        ;
    } else {
        lemma_pow0(2);
    }
}

/// Splits a positive `n` as `d * 2^s` with `d` odd.
pub fn rewrite(n: u64) -> (r: (u32, u64))
    requires
        n > 0,
    ensures
        r.1 % 2 == 1,
        n as int == r.1 as int * pow(2, r.0 as nat),
        r.0 as nat == two_exp(n as nat),
        r.1 as nat == odd_part(n as nat),
{
    let mut d: u64 = n;
    let mut s: u32 = 0;
    proof {
        lemma_pow0(2);
    }
    while d % 2 == 0
        invariant
            d > 0,
            s <= 64,
            n as int == d as int * pow(2, s as nat),
            n <= 0xffff_ffff_ffff_ffffu64,
            two_exp(n as nat) == s + two_exp(d as nat),
            odd_part(n as nat) == odd_part(d as nat),
        decreases d,
    {
        proof {
            lemma_pow2_succ(s as nat);
            assert(n as int == (d / 2) as int * pow(2, (s + 1) as nat)) by (nonlinear_arith)
                requires
                    n as int == d as int * pow(2, s as nat),
                    pow(2, (s + 1) as nat) == 2 * pow(2, s as nat),
                    d % 2 == 0,
            ;
            if s == 64 {
                lemma2_to64();
                lemma_pow2(64);
                assert(n as int >= pow(2, 64)) by (nonlinear_arith)
                    requires
                        n as int == d as int * pow(2, s as nat),
                        d > 0,
                        s == 64,
                        pow(2, s as nat) > 0,
                ;
            }
        }
        d = d / 2;
        s = s + 1;
    }
    (s, d)
}

/// The number of bits of `x`: the least `k` with `x < 2^k`.
pub fn bit_length(x: u64) -> (k: u32)
    ensures
        k <= 64,
        (x as int) < pow(2, k as nat),
        k > 0 ==> pow(2, (k - 1) as nat) <= x as int,
{
    let mut v: u64 = x;
    let mut k: u32 = 0;
    proof {
        lemma_pow0(2);
    }
    while v > 0
        invariant
            k <= 64,
            pow(2, k as nat) > 0,
            v as int == x as int / pow(2, k as nat),
            k > 0 ==> pow(2, (k - 1) as nat) <= x as int,
        decreases v,
    {
        proof {
            lemma_pow2_succ(k as nat);
            lemma_div_denominator(x as int, pow(2, k as nat), 2);
            assert(pow(2, k as nat) <= x as int) by (nonlinear_arith)
                requires
                    v as int == x as int / pow(2, k as nat),
                    v > 0,
                    pow(2, k as nat) > 0,
                    x >= 0,
            ;
            if k == 64 {
                lemma2_to64();
                lemma_pow2(64);
            }
        }
        v = v / 2;
        k = k + 1;
    }
    proof {
        assert((x as int) < pow(2, k as nat)) by (nonlinear_arith)
            requires
                0 == x as int / pow(2, k as nat),
                pow(2, k as nat) > 0,
                x >= 0,
        ;
    }
    k
}

/// `2^k` as a machine word.
pub fn power_of_two(k: u32) -> (r: u64)
    requires
        k < 64,
    ensures
        r as int == pow(2, k as nat),
{
    let mut r: u64 = 1;
    let mut i: u32 = 0;
    proof {
        lemma_pow0(2);
    }
    while i < k
        invariant
            i <= k,
            k < 64,
            r as int == pow(2, i as nat),
        decreases k - i,
    {
        proof {
            lemma_pow2_succ(i as nat);
            lemma_pow_strictly_increases(2, (i + 1) as nat, 64);
            lemma2_to64();
            lemma_pow2(64);
        }
        r = r * 2;
        i = i + 1;
    }
    r
}

} // verus!
