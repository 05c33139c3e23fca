use vstd::arithmetic::div_mod::*;
use vstd::prelude::*;

verus! {

/// `n` is a prime number.
pub open spec fn prime(n: int) -> bool {
    n >= 2 && forall|d: int| 2 <= d < n ==> #[trigger] (n % d) != 0
}

/// `ps` holds the first `ps.len()` primes in increasing order.
pub open spec fn first_primes(ps: Seq<u64>) -> bool {
    &&& ps.len() > 0 ==> ps[0] == 2
    &&& forall|i: int| 0 <= i < ps.len() ==> prime(#[trigger] ps[i] as int)
    &&& forall|i: int, j: int| 0 <= i < j < ps.len() ==> ps[i] < ps[j]
    &&& forall|i: int, m: int|
        0 <= i < ps.len() - 1 && #[trigger] ps[i] < m < ps[i + 1] ==> !#[trigger] prime(m)
}

/// Some element of `ps` other than `n` itself divides `n`.
pub open spec fn has_listed_factor(n: int, ps: Seq<u64>) -> bool {
    exists|i: int| 0 <= i < ps.len() && ps[i] != n && n % (#[trigger] ps[i] as int) == 0
}

/// No `d` with `2 <= d <= bound` and `d < n` divides `n`.
pub open spec fn no_divisor_up_to(n: int, bound: int) -> bool {
    forall|d: int| 2 <= d <= bound && d < n ==> #[trigger] (n % d) != 0
}

/// Two prefixes of the primes of one length are the same sequence.
pub proof fn lemma_first_primes_unique(ps: Seq<u64>, qs: Seq<u64>)
    requires
        first_primes(ps),
        first_primes(qs),
        ps.len() == qs.len(),
    ensures
        ps == qs,
{
    assert forall|i: int| 0 <= i < ps.len() implies ps[i] == qs[i] by {
        lemma_first_primes_agree(ps, qs, i);
    }
    assert(ps =~= qs);
}

proof fn lemma_first_primes_agree(ps: Seq<u64>, qs: Seq<u64>, i: int)
    requires
        first_primes(ps),
        first_primes(qs),
        ps.len() == qs.len(),
        0 <= i < ps.len(),
    ensures
        ps[i] == qs[i],
    decreases i,
{
    if i > 0 {
        lemma_first_primes_agree(ps, qs, i - 1);
        assert(prime(ps[i] as int));
        assert(prime(qs[i] as int));
        assert(ps[i - 1] < ps[i]);
        assert(qs[i - 1] < qs[i]);
        if ps[i] < qs[i] {
            assert(qs[i - 1] < ps[i] < qs[i]);
        } else if qs[i] < ps[i] {
            assert(ps[i - 1] < qs[i] < ps[i]);
        }
    }
}

/// Relies on primal::Primes::all, which yields 2, 3, 5, 7, ... : every
/// prime, in increasing order. The first `n` of them are taken.
#[verifier::external_body]
pub(crate) fn prime_table(n: usize) -> (r: Vec<u64>)
    ensures
        r@.len() == n,
        first_primes(r@),
{
    primal::Primes::all().take(n).map(|p| p as u64).collect()
}

pub proof fn lemma_divides_trans(p: int, e: int, n: int)
    requires
        p > 0,
        e > 0,
        e % p == 0,
        n % e == 0,
    ensures
        n % p == 0,
{
    lemma_fundamental_div_mod(n, e);
    lemma_fundamental_div_mod(e, p);
    assert(n == ((e / p) * (n / e)) * p) by (nonlinear_arith)
        requires
            n == e * (n / e) + 0,
            e == p * (e / p) + 0,
    ;
    lemma_mod_multiples_basic((e / p) * (n / e), p);
}

/// Every `n >= 2` has a prime factor no larger than itself.
pub proof fn lemma_prime_factor(n: int) -> (p: int)
    requires
        n >= 2,
    ensures
        prime(p),
        2 <= p <= n,
        n % p == 0,
    decreases n,
{
    if prime(n) {
        lemma_mod_self_0(n);
        n
    } else {
        let e = choose|e: int| 2 <= e < n && #[trigger] (n % e) == 0;
        let p = lemma_prime_factor(e);
        lemma_divides_trans(p, e, n);
        p
    }
}

pub proof fn lemma_listed_grows(ps: Seq<u64>, i: int)
    requires
        first_primes(ps),
        0 <= i < ps.len(),
    ensures
        ps[i] >= i + 2,
    decreases i,
{
    if i > 0 {
        lemma_listed_grows(ps, i - 1);
    }
}

/// Every prime up to the last element of a prefix of the primes is listed.
pub proof fn lemma_prime_listed(ps: Seq<u64>, p: int, i: int)
    requires
        first_primes(ps),
        0 <= i < ps.len(),
        ps[i] <= p <= ps[ps.len() - 1],
        prime(p),
    ensures
        exists|k: int| 0 <= k < ps.len() && ps[k] == p,
    decreases ps.len() - i,
{
    if ps[i] as int != p {
        assert(i + 1 < ps.len());
        if p >= ps[i + 1] {
            lemma_prime_listed(ps, p, i + 1);
        }
    }
}

/// Passing the sieve leaves no divisor up to the sieve's largest prime.
pub proof fn lemma_sieve_clears(n: int, ps: Seq<u64>)
    requires
        first_primes(ps),
        ps.len() > 0,
        n >= 0,
        !has_listed_factor(n, ps),
    ensures
        no_divisor_up_to(n, ps[ps.len() - 1] as int),
{
    assert forall|d: int| 2 <= d <= ps[ps.len() - 1] && d < n implies #[trigger] (n % d) != 0 by {
        if n % d == 0 {
            let p = lemma_prime_factor(d);
            lemma_divides_trans(p, d, n);
            lemma_prime_listed(ps, p, 0);
            let k = choose|k: int| 0 <= k < ps.len() && ps[k] == p;
            assert(ps[k] != n && n % (ps[k] as int) == 0);
        }
    }
}

/// A number below `(bound + 1)^2` without a divisor up to `bound` is prime.
pub proof fn lemma_small_prime(n: int, bound: int)
    requires
        2 <= n,
        bound >= 1,
        n < (bound + 1) * (bound + 1),
        no_divisor_up_to(n, bound),
    ensures
        prime(n),
{
    assert forall|d: int| 2 <= d < n implies #[trigger] (n % d) != 0 by {
        if n % d == 0 {
            let e = n / d;
            lemma_fundamental_div_mod(n, d);
            assert(n == d * e);
            assert(e >= 2 && e < n) by (nonlinear_arith)
                requires
                    n == d * e,
                    2 <= d < n,
            ;
            lemma_mod_multiples_basic(d, e);
            assert(n % e == 0) by {
                assert(d * e == e * d) by (nonlinear_arith);
            }
            if d <= bound {
            } else if e <= bound {
            } else {
                assert(n >= (bound + 1) * (bound + 1)) by (nonlinear_arith)
                    requires
                        n == d * e,
                        d >= bound + 1,
                        e >= bound + 1,
                        bound >= 1,
                ;
            }
        }
    }
}

/// Trial division of `candidate` by the primes of `table`, in order: `true`
/// when it equals one of them or none of them divides it.
pub fn simple_test(candidate: u64, table: &Vec<u64>) -> (r: bool)
    requires
        first_primes(table@),
    ensures
        r == !has_listed_factor(candidate as int, table@),
{
    let mut i: usize = 0;
    while i < table.len()
        invariant
            first_primes(table@),
            0 <= i <= table@.len(),
            forall|j: int|
                0 <= j < i ==> #[trigger] table@[j] != candidate && (candidate as int % (
                table@[j] as int)) != 0,
        decreases table@.len() - i,
    {
        let p = table[i];
        assert(prime(table@[i as int] as int));
        if p == candidate {
            assert forall|j: int| 0 <= j < table@.len() && table@[j] != candidate implies (
            candidate as int % (#[trigger] table@[j] as int)) != 0 by {
                if j > i {
                    lemma_small_mod(candidate as nat, table@[j] as nat);
                }
            }
            return true;
        }
        if candidate % p == 0 {
            return false;
        }
        assert(candidate as int % (table@[i as int] as int) != 0);
        i = i + 1;
    }
    true
}

} // verus!
