use crate::arith::pow_mod;
use crate::fermat::lemma_fermat_little;
use crate::primes::prime;
use vstd::arithmetic::div_mod::lemma_small_mod;
use vstd::arithmetic::power::*;
use vstd::prelude::*;

verus! {

/// For every `f` in `factors`, `g^((q - 1) / f) mod q != 1`: `g` lies in
/// none of the subgroups whose index is one of `factors`.
pub open spec fn escapes_subgroups(q: int, factors: Seq<u64>, g: int) -> bool {
    forall|i: int|
        0 <= i < factors.len() ==> pow(g, ((q - 1) / (#[trigger] factors[i] as int)) as nat) % q
            != 1
}

/// Every element of `s` is positive.
pub open spec fn all_positive(s: Seq<u64>) -> bool {
    forall|i: int| 0 <= i < s.len() ==> #[trigger] s[i] > 0
}

proof fn lemma_push_contains(s: Seq<u64>, y: u64, x: u64)
    ensures
        s.push(y).contains(x) <==> (s.contains(x) || x == y),
{
    let t = s.push(y);
    if t.contains(x) {
        let k = choose|k: int| 0 <= k < t.len() && t[k] == x;
        if k < s.len() {
            assert(s[k] == x);
        }
    }
    if s.contains(x) {
        let k = choose|k: int| 0 <= k < s.len() && s[k] == x;
        assert(t[k] == x);
    }
    if x == y {
        assert(t[s.len() as int] == x);
    }
}

/// The elements of `v`, each once.
pub fn dedup_factors(v: &Vec<u64>) -> (r: Vec<u64>)
    ensures
        forall|x: u64| v@.contains(x) <==> r@.contains(x),
        forall|i: int, j: int| 0 <= i < j < r@.len() ==> r@[i] != r@[j],
{
    let mut r: Vec<u64> = Vec::new();
    let mut i: usize = 0;
    while i < v.len()
        invariant
            i <= v@.len(),
            forall|x: u64| v@.take(i as int).contains(x) <==> r@.contains(x),
            forall|a: int, b: int| 0 <= a < b < r@.len() ==> r@[a] != r@[b],
        decreases v@.len() - i,
    {
        let x = v[i];
        let mut seen = false;
        let mut j: usize = 0;
        while j < r.len()
            invariant
                j <= r@.len(),
                seen <==> r@.take(j as int).contains(x),
            decreases r@.len() - j,
        {
            if r[j] == x {
                seen = true;
            }
            assert(r@.take(j as int + 1) =~= r@.take(j as int).push(r@[j as int]));
            proof {
                lemma_push_contains(r@.take(j as int), r@[j as int], x);
            }
            j = j + 1;
        }
        assert(r@.take(j as int) =~= r@);
        assert(v@.take(i as int + 1) =~= v@.take(i as int).push(x));
        let ghost before = r@;
        if !seen {
            r.push(x);
        }
        proof {
            assert forall|z: u64| v@.take(i as int + 1).contains(z) <==> r@.contains(z) by {
                lemma_push_contains(v@.take(i as int), x, z);
                lemma_push_contains(before, x, z);
            }
        }
        i = i + 1;
    }
    assert(v@.take(i as int) =~= v@);
    r
}

/// Whether `g` escapes every subgroup of prime index `f` in `factors`.
pub fn escapes_all(q: u64, factors: &Vec<u64>, g: u64) -> (r: bool)
    requires
        q >= 1,
        all_positive(factors@),
    ensures
        r == escapes_subgroups(q as int, factors@, g as int),
{
    let order = q - 1;
    let mut i: usize = 0;
    while i < factors.len()
        invariant
            q >= 1,
            order == q - 1,
            all_positive(factors@),
            i <= factors@.len(),
            escapes_subgroups(q as int, factors@.take(i as int), g as int),
        decreases factors@.len() - i,
    {
        let f = factors[i];
        let v = pow_mod(g, order / f, q);
        if v == 1 {
            assert(pow(g as int, ((q - 1) / (factors@[i as int] as int)) as nat) % (q as int) == 1);
            return false;
        }
        assert(factors@.take(i as int + 1) =~= factors@.take(i as int).push(f));
        i = i + 1;
    }
    assert(factors@.take(i as int) =~= factors@);
    true
}

/// For a prime `q`, a `g` in `[2, q - 1]` that escapes every subgroup of
/// index `f` in `factors` has `g^(q - 1) mod q == 1` and
/// `g^((q - 1) / f) mod q != 1` for every `f` in `factors`.
pub proof fn lemma_generator_criterion(q: u64, factors: Seq<u64>, g: u64)
    requires
        prime(q as int),
        2 <= g <= q - 1,
        escapes_subgroups(q as int, factors, g as int),
    ensures
        pow(g as int, (q - 1) as nat) % (q as int) == 1,
        forall|i: int|
            0 <= i < factors.len() ==> pow(
                g as int,
                ((q - 1) / (#[trigger] factors[i] as int)) as nat,
            ) % (q as int) != 1,
{
    lemma_small_mod(g as nat, q as nat);
    lemma_fermat_little(q as nat, g as nat);
}

/// The least `g` in `[2, q - 1]` with `g^((q - 1) / f) mod q != 1` for every
/// distinct `f` in `factors`. When `factors` holds every prime that divides
/// `q - 1` and `q` is prime, that `g` generates the multiplicative group
/// modulo `q`. `None` when no `g` in that range qualifies.
pub fn find_gen(q: u64, factors: Vec<u64>) -> (r: Option<u64>)
    requires
        q >= 1,
        all_positive(factors@),
    ensures
        r matches Some(g) ==> 2 <= g <= q - 1 && escapes_subgroups(q as int, factors@, g as int)
            && forall|h: int| 2 <= h < g ==> !escapes_subgroups(q as int, factors@, h),
        r matches Some(g) ==> (prime(q as int) ==> pow(g as int, (q - 1) as nat) % (q as int)
            == 1),
        r is None ==> forall|h: int|
            2 <= h <= q - 1 ==> !escapes_subgroups(q as int, factors@, h),
{
    if q < 2 {
        return None;
    }
    let distinct = dedup_factors(&factors);
    assert forall|h: int| escapes_subgroups(q as int, factors@, h) <==> escapes_subgroups(
        q as int,
        distinct@,
        h,
    ) by {
        if escapes_subgroups(q as int, factors@, h) {
            assert forall|i: int| 0 <= i < distinct@.len() implies pow(
                h,
                ((q - 1) / (#[trigger] distinct@[i] as int)) as nat,
            ) % (q as int) != 1 by {
                assert(distinct@.contains(distinct@[i]));
                let k = choose|k: int| 0 <= k < factors@.len() && factors@[k] == distinct@[i];
            }
        }
        if escapes_subgroups(q as int, distinct@, h) {
            assert forall|i: int| 0 <= i < factors@.len() implies pow(
                h,
                ((q - 1) / (#[trigger] factors@[i] as int)) as nat,
            ) % (q as int) != 1 by {
                assert(factors@.contains(factors@[i]));
                let k = choose|k: int| 0 <= k < distinct@.len() && distinct@[k] == factors@[i];
            }
        }
    }
    assert(all_positive(distinct@)) by {
        assert forall|i: int| 0 <= i < distinct@.len() implies #[trigger] distinct@[i] > 0 by {
            assert(distinct@.contains(distinct@[i]));
        }
    }
    let mut g: u64 = 2;
    while g <= q - 1
        invariant
            q >= 2,
            all_positive(distinct@),
            2 <= g,
            forall|h: int| escapes_subgroups(q as int, factors@, h) <==> escapes_subgroups(
                q as int,
                distinct@,
                h,
            ),
            forall|h: int| 2 <= h < g ==> !escapes_subgroups(q as int, factors@, h),
            g <= q,
        decreases q - g,
    {
        if escapes_all(q, &distinct, g) {
            proof {
                if prime(q as int) {
                    lemma_generator_criterion(q, factors@, g);
                }
            }
            return Some(g);
        }
        g = g + 1;
    }
    None
}

} // verus!
