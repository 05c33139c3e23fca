use crate::fermat::lemma_euclid;
use crate::primes::{
    first_primes, lemma_divides_trans, lemma_first_primes_unique, lemma_listed_grows,
    lemma_prime_factor, lemma_prime_listed, prime, prime_table,
};
use vstd::arithmetic::div_mod::*;
use vstd::prelude::*;

verus! {

/// How many of the smallest primes trial division may try.
pub const FACTOR_HORIZON: usize = 20000;

/// Why a number could not be factored.
#[derive(Debug, Clone, Copy, PartialEq, Eq, Structural)]
pub enum FactorError {
    /// The number to factor is zero.
    NotPositive,
    /// The number has a prime factor beyond the trial-division horizon.
    OutsideHorizon,
}

/// The product of the elements of `s`.
pub open spec fn product(s: Seq<u64>) -> int
    decreases s.len(),
{
    if s.len() == 0 {
        1
    } else {
        product(s.drop_last()) * s.last() as int
    }
}

proof fn lemma_product_push(s: Seq<u64>, x: u64)
    ensures
        product(s.push(x)) == product(s) * x as int,
{
    assert(s.push(x).drop_last() =~= s);
}

/// `x` is an element of `ps`.
pub open spec fn listed(x: int, ps: Seq<u64>) -> bool {
    exists|k: int| 0 <= k < ps.len() && #[trigger] ps[k] as int == x
}

/// `p` is one of the first `FACTOR_HORIZON` primes.
pub open spec fn within_horizon(p: int) -> bool {
    exists|ps: Seq<u64>| #[trigger] first_primes(ps) && ps.len() == FACTOR_HORIZON && listed(p, ps)
}

/// Euclid's lemma: a prime that divides `a * b` divides `a` or `b`.
pub proof fn lemma_euclid_product(p: int, a: int, b: int)
    requires
        prime(p),
        (a * b) % p == 0,
    ensures
        a % p == 0 || b % p == 0,
{
    let k = a % p;
    if k != 0 {
        lemma_mul_mod_noop_left(a, b, p);
        lemma_mod_bound(a, p);
        lemma_euclid(p, k, b);
    }
}

proof fn lemma_product_positive(s: Seq<u64>)
    requires
        forall|i: int| 0 <= i < s.len() ==> prime(#[trigger] s[i] as int),
    ensures
        product(s) > 0,
    decreases s.len(),
{
    if s.len() > 0 {
        lemma_product_positive(s.drop_last());
        assert(prime(s[s.len() - 1] as int));
        assert(product(s.drop_last()) * s.last() as int > 0) by (nonlinear_arith)
            requires
                product(s.drop_last()) > 0,
                s.last() >= 2,
        ;
    }
}

/// A prime that divides a product of primes is one of them.
pub proof fn lemma_prime_divides_product(p: int, s: Seq<u64>)
    requires
        prime(p),
        forall|i: int| 0 <= i < s.len() ==> prime(#[trigger] s[i] as int),
        product(s) % p == 0,
    ensures
        listed(p, s),
    decreases s.len(),
{
    if s.len() == 0 {
        lemma_small_mod(1, p as nat);
    } else {
        let init = s.drop_last();
        let last = s.last() as int;
        assert(prime(s[s.len() - 1] as int));
        lemma_euclid_product(p, product(init), last);
        if product(init) % p == 0 {
            lemma_prime_divides_product(p, init);
            let k = choose|k: int| 0 <= k < init.len() && #[trigger] init[k] as int == p;
            assert(s[k] as int == p);
        } else {
            if p > last {
                lemma_small_mod(last as nat, p as nat);
            }
            assert(s[s.len() - 1] as int == p);
        }
    }
}

/// The elements of `s` never decrease.
pub open spec fn nondecreasing(s: Seq<u64>) -> bool {
    forall|i: int, j: int| 0 <= i <= j < s.len() ==> s[i] <= s[j]
}

/// The product of `p` followed by `s` is `p` times the product of `s`.
pub proof fn lemma_product_prepend(p: u64, s: Seq<u64>)
    ensures
        product(seq![p] + s) == p as int * product(s),
    decreases s.len(),
{
    if s.len() == 0 {
        assert(seq![p] + s =~= seq![p]);
        assert(seq![p].drop_last() =~= Seq::<u64>::empty());
        assert(product(seq![p]) == product(Seq::<u64>::empty()) * p as int);
    } else {
        lemma_product_prepend(p, s.drop_last());
        assert((seq![p] + s).drop_last() =~= seq![p] + s.drop_last());
        assert((seq![p] + s).last() == s.last());
        assert(p as int * product(s.drop_last()) * s.last() as int == p as int * (product(
            s.drop_last()) * s.last() as int)) by (nonlinear_arith);
    }
}

/// The first prime of `table` that divides `m`, by its index.
pub fn first_divisor(m: u64, table: &Vec<u64>) -> (r: Option<usize>)
    requires
        first_primes(table@),
    ensures
        r matches Some(i) ==> i < table@.len() && m as int % (table@[i as int] as int) == 0
            && forall|j: int| 0 <= j < i ==> m as int % (#[trigger] table@[j] as int) != 0,
        r is None ==> forall|j: int|
            0 <= j < table@.len() ==> m as int % (#[trigger] table@[j] as int) != 0,
{
    let mut i: usize = 0;
    while i < table.len()
        invariant
            first_primes(table@),
            i <= table@.len(),
            forall|j: int| 0 <= j < i ==> m as int % (#[trigger] table@[j] as int) != 0,
        decreases table@.len() - i,
    {
        assert(prime(table@[i as int] as int));
        if m % table[i] == 0 {
            return Some(i);
        }
        i = i + 1;
    }
    None
}

/// Factors `n` by trial division over `table`: each step divides out the
/// first prime of `table` that divides what is left, scanning from the start.
pub fn factor_over(n: u64, table: &Vec<u64>) -> (r: Result<Vec<u64>, FactorError>)
    requires
        n > 0,
        first_primes(table@),
        table@.len() > 0,
    ensures
        r matches Ok(fs) ==> product(fs@) == n && (forall|i: int|
            0 <= i < fs@.len() ==> prime(#[trigger] fs@[i] as int)) && nondecreasing(fs@) && (
        forall|i: int| 0 <= i < fs@.len() ==> listed(#[trigger] fs@[i] as int, table@)),
        r matches Err(e) ==> e == FactorError::OutsideHorizon && exists|p: int|
            prime(p) && n as int % p == 0 && !listed(p, table@),
{
    let mut result: Vec<u64> = Vec::new();
    let mut remaining: u64 = n;
    while remaining != 1
        invariant
            n > 0,
            first_primes(table@),
            table@.len() > 0,
            remaining >= 1,
            product(result@) * remaining as int == n as int,
            forall|i: int| 0 <= i < result@.len() ==> prime(#[trigger] result@[i] as int),
            nondecreasing(result@),
            forall|i: int| 0 <= i < result@.len() ==> listed(#[trigger] result@[i] as int, table@),
            result@.len() > 0 ==> forall|j: int|
                0 <= j < table@.len() && table@[j] < result@.last() ==> remaining as int % (
                #[trigger] table@[j] as int) != 0,
        decreases remaining,
    {
        match first_divisor(remaining, table) {
            Some(i) => {
                let p = table[i];
                assert(prime(table@[i as int] as int));
                proof {
                    lemma_product_push(result@, p);
                    lemma_fundamental_div_mod(remaining as int, p as int);
                    assert(product(result@) * p as int * (remaining / p) as int == n as int)
                        by (nonlinear_arith)
                        requires
                            product(result@) * remaining as int == n as int,
                            remaining as int == p as int * (remaining as int / p as int) + 0,
                    ;
                    assert(1 <= (remaining as int) / (p as int) < (remaining as int)) by (nonlinear_arith)
                        requires
                            remaining as int == p as int * (remaining as int / p as int) + 0,
                            p >= 2,
                            remaining >= 1,
                    ;
                }
                let ghost old_rem = remaining as int;
                let ghost old_result = result@;
                proof {
                    if old_result.len() > 0 && p < old_result.last() {
                        assert(old_rem % (table@[i as int] as int) != 0);
                    }
                }
                result.push(p);
                remaining = remaining / p;
                proof {
                    assert forall|j: int| 0 <= j < result@.len() implies listed(
                        #[trigger] result@[j] as int,
                        table@,
                    ) by {
                        if j == result@.len() - 1 {
                            assert(table@[i as int] == result@[j]);
                        } else {
                            assert(result@[j] == old_result[j]);
                        }
                    }
                    assert forall|j: int|
                        0 <= j < table@.len() && table@[j] < result@.last() implies remaining as int
                        % (#[trigger] table@[j] as int) != 0 by {
                        if remaining as int % (table@[j] as int) == 0 {
                            assert(prime(table@[j] as int));
                            lemma_mod_multiples_basic(remaining as int, p as int);
                            assert(old_rem == (remaining as int) * (p as int)) by (nonlinear_arith)
                                requires
                                    old_rem == p as int * (old_rem / p as int) + 0,
                                    remaining as int == old_rem / p as int,
                            ;
                            assert(old_rem % (remaining as int) == 0) by {
                                lemma_mod_multiples_basic(p as int, remaining as int);
                                assert(p as int * remaining as int == old_rem) by (nonlinear_arith)
                                    requires
                                        old_rem == (remaining as int) * (p as int),
                                ;
                            }
                            lemma_divides_trans(table@[j] as int, remaining as int, old_rem);
                            if j >= i {
                                assert(table@[j] >= table@[i as int]);
                            }
                        }
                    }
                    assert forall|a: int, b: int| 0 <= a <= b < result@.len() implies result@[a]
                        <= result@[b] by {
                        if b == result@.len() - 1 && a < b {
                            assert(old_result[a] <= old_result.last());
                        }
                    }
                }
            },
            None => {
                proof {
                    let m = remaining as int;
                    let p = lemma_prime_factor(m);
                    lemma_mod_multiples_basic(product(result@), m);
                    assert(product(result@) * m == n as int);
                    assert(product(result@) > 0) by (nonlinear_arith)
                        requires
                            product(result@) * m == n as int,
                            n > 0,
                            m >= 1,
                    ;
                    lemma_divides_trans(p, m, n as int);
                    if p <= table@[table@.len() - 1] {
                        lemma_prime_listed(table@, p, 0);
                        let k = choose|k: int| 0 <= k < table@.len() && table@[k] == p;
                        assert(m % (table@[k] as int) != 0);
                    }
                    if listed(p, table@) {
                        let k = choose|k: int| 0 <= k < table@.len() && #[trigger] table@[k] as int == p;
                        assert(table@[k] <= table@[table@.len() - 1]);
                    }
                }
                return Err(FactorError::OutsideHorizon);
            },
        }
    }
    assert(product(result@) == n);
    Ok(result)
}

proof fn lemma_horizon_is_table(table: Seq<u64>)
    requires
        first_primes(table),
        table.len() == FACTOR_HORIZON,
    ensures
        forall|p: int| #[trigger] within_horizon(p) <==> listed(p, table),
{
    assert forall|p: int| #[trigger] within_horizon(p) <==> listed(p, table) by {
        if within_horizon(p) {
            let ps = choose|ps: Seq<u64>|
                #[trigger] first_primes(ps) && ps.len() == FACTOR_HORIZON && listed(p, ps);
            lemma_first_primes_unique(ps, table);
        }
    }
}

proof fn lemma_smooth_result(n: int, fs: Seq<u64>, table: Seq<u64>)
    requires
        product(fs) == n,
        forall|i: int| 0 <= i < fs.len() ==> prime(#[trigger] fs[i] as int),
        forall|i: int| 0 <= i < fs.len() ==> listed(#[trigger] fs[i] as int, table),
        forall|p: int| #[trigger] within_horizon(p) <==> listed(p, table),
    ensures
        !exists|p: int| prime(p) && n % p == 0 && !within_horizon(p),
        forall|i: int| 0 <= i < fs.len() ==> within_horizon(#[trigger] fs[i] as int),
{
    if exists|p: int| prime(p) && n % p == 0 && !within_horizon(p) {
        let p = choose|p: int| prime(p) && n % p == 0 && !within_horizon(p);
        lemma_prime_divides_product(p, fs);
        let k = choose|k: int| 0 <= k < fs.len() && #[trigger] fs[k] as int == p;
        assert(listed(fs[k] as int, table));
    }
    assert forall|i: int| 0 <= i < fs.len() implies within_horizon(#[trigger] fs[i] as int) by {
        assert(listed(fs[i] as int, table));
    }
}

/// The prime factors of `n`, with multiplicity and in increasing order, by
/// trial division over the first `FACTOR_HORIZON` primes. Zero is refused,
/// and so is a number with a prime factor beyond that horizon.
pub fn prime_factor(n: u64) -> (r: Result<Vec<u64>, FactorError>)
    ensures
        r matches Ok(fs) ==> product(fs@) == n && (forall|i: int|
            0 <= i < fs@.len() ==> prime(#[trigger] fs@[i] as int)) && nondecreasing(fs@) && (
        forall|i: int| 0 <= i < fs@.len() ==> within_horizon(#[trigger] fs@[i] as int)),
        (r == Err::<Vec<u64>, FactorError>(FactorError::NotPositive)) <==> n == 0,
        (r == Err::<Vec<u64>, FactorError>(FactorError::OutsideHorizon)) <==> (n > 0 && exists|
            p: int,
        | prime(p) && n as int % p == 0 && !within_horizon(p)),
{
    if n == 0 {
        return Err(FactorError::NotPositive);
    }
    let table = prime_table(FACTOR_HORIZON);
    proof {
        lemma_listed_grows(table@, table@.len() - 1);
    }
    let r = factor_over(n, &table);
    proof {
        lemma_horizon_is_table(table@);
        if r is Ok {
            lemma_smooth_result(n as int, r->Ok_0@, table@);
        }
    }
    r
}

} // verus!
