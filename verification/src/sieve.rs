//! The smallest-prime-factor table and its query operations.

use vstd::prelude::*;
use vstd::pervasive::VecAdditionalExecFns;
use vstd::arithmetic::div_mod::{
    lemma_div_decreases, lemma_div_multiples_vanish, lemma_mod_add_multiples_vanish,
    lemma_mod_self_0, lemma_small_mod, lemma_sub_mod_noop,
};
use vstd::arithmetic::power::{lemma_pow0, lemma_pow1, lemma_pow_adds, lemma_pow_positive, pow};
use crate::divisibility::{
    divides, is_prime, lemma_divides_factor, lemma_divides_le, lemma_divides_mul,
    lemma_divides_transitive, lemma_divides_witness, lemma_spf_basics, lemma_spf_eq_iff_prime,
    smallest_prime_factor,
};
use crate::divisors::{divisor_list, expand_upto, lemma_divisor_list_elements, scale};
use crate::factorization::{
    divisor_count, factorization, lemma_divisor_count_bounds, lemma_factor_prime_divides,
    lemma_factorization_props, lemma_pairs_product_snoc, lemma_pow_at_least_linear,
    lemma_prime_divisor_in_factorization, lemma_product_take, lemma_valid_take, multiplicity,
    pairs_product, valid_factor_seq,
};

verus! {

/// The mathematical value of an executable sequence of
/// (prime, multiplicity) pairs.
pub open spec fn pairs_view(s: Seq<(u32, u32)>) -> Seq<(int, int)> {
    s.map_values(|pr: (u32, u32)| (pr.0 as int, pr.1 as int))
}

/// The mathematical values of an executable sequence of divisors.
pub open spec fn divisors_view(s: Seq<u32>) -> Seq<int> {
    s.map_values(|d: u32| d as int)
}

/// No prime occurs in both factorizations.
pub open spec fn no_common_prime(x: Seq<(int, int)>, y: Seq<(int, int)>) -> bool {
    forall|i: int, j: int|
        0 <= i < x.len() && 0 <= j < y.len() ==> (#[trigger] x[i]).0 != (#[trigger] y[j]).0
}

/// Sharing no prime between the two factorizations is the same as having no
/// common divisor above 1, that is, a greatest common divisor of 1.
pub proof fn lemma_no_common_prime_iff_coprime(a: int, b: int)
    requires
        a >= 1,
        b >= 1,
    ensures
        no_common_prime(factorization(a), factorization(b)) <==> forall|g: int|
            2 <= g ==> !(#[trigger] divides(g, a) && divides(g, b)),
{
    lemma_factorization_props(a);
    lemma_factorization_props(b);
    let sa = factorization(a);
    let sb = factorization(b);
    if no_common_prime(sa, sb) {
        assert forall|g: int| 2 <= g implies !(#[trigger] divides(g, a) && divides(g, b)) by {
            if divides(g, a) && divides(g, b) {
                let q = smallest_prime_factor(g);
                lemma_spf_basics(g);
                lemma_divides_transitive(q, g, a);
                lemma_divides_transitive(q, g, b);
                lemma_prime_divisor_in_factorization(a, q);
                lemma_prime_divisor_in_factorization(b, q);
                let i = choose|i: int| 0 <= i < sa.len() && (#[trigger] sa[i]).0 == q;
                let j = choose|j: int| 0 <= j < sb.len() && (#[trigger] sb[j]).0 == q;
                assert(sa[i].0 == sb[j].0);
                assert(false);
            }
        }
    } else {
        let (i, j) = choose|i: int, j: int|
            0 <= i < sa.len() && 0 <= j < sb.len() && (#[trigger] sa[i]).0 == (#[trigger] sb[j]).0;
        lemma_factor_prime_divides(sa, i);
        lemma_factor_prime_divides(sb, j);
        let g = sa[i].0;
        assert(2 <= g && divides(g, a) && divides(g, b));
    }
}

/// A table of smallest prime factors for every integer from 2 up to an
/// inclusive bound fixed at construction. All queries are answered from the
/// table with no further sieving.
pub struct PrimeFactorSieve {
    smallest_prime_factors: Vec<u32>,
}

impl PrimeFactorSieve {
    /// The underlying table; `table()[m]` is the smallest prime factor of
    /// `m` for `2 <= m <= bound()`, and the entries below 2 are unused
    /// zero sentinels.
    pub closed spec fn table(&self) -> Seq<u32> {
        self.smallest_prime_factors@
    }

    /// The inclusive upper bound the table was built for.
    pub open spec fn bound(&self) -> int {
        self.table().len() - 1
    }

    /// The table invariant: one entry per integer up to the bound, each
    /// entry from 2 on holding exactly the smallest prime factor of its
    /// index.
    pub closed spec fn wf(&self) -> bool {
        &&& self.table().len() >= 1
        &&& self.table().len() <= u32::MAX as int + 1
        &&& forall|m: int|
            2 <= m < self.table().len()
                ==> (#[trigger] self.table()[m]) as int == smallest_prime_factor(m)
        &&& forall|m: int| 0 <= m < 2 && m < self.table().len() ==> self.table()[m] == 0
    }

    /// Builds the table for all integers up to `n` inclusive with a sieve:
    /// every prime stamps itself on each multiple not yet claimed by a
    /// smaller prime.
    pub fn new(n: u32) -> (r: Self)
        ensures
            r.wf(),
            r.bound() == n as int,
    {
        let mut v: Vec<u32> = Vec::new();
        v.push(0);
        while v.len() <= n as usize
            invariant
                1 <= v@.len() <= n as int + 1,
                forall|t: int| 0 <= t < v@.len() ==> v@[t] == 0,
            decreases n as int + 1 - v@.len(),
        {
            v.push(0);
        }
        assert(v@.len() == n as int + 1);
        let n64: u64 = n as u64;
        proof {
            assert forall|m: int| 2 <= m < v@.len() implies smallest_prime_factor(m) >= 2 by {
                lemma_spf_basics(m);
            }
        }
        let mut i: u64 = 2;
        while i <= n64
            invariant
                n64 == n as int,
                v@.len() == n as int + 1,
                2 <= i,
                n64 >= 2 ==> i <= n64 + 1,
                forall|t: int| 0 <= t < 2 && t < v@.len() ==> v@[t] == 0,
                forall|m: int|
                    2 <= m < v@.len()
                        ==> ((#[trigger] v@[m]) == 0 <==> smallest_prime_factor(m) >= i),
                forall|m: int|
                    2 <= m < v@.len() && (#[trigger] v@[m]) != 0
                        ==> v@[m] as int == smallest_prime_factor(m),
            decreases n64 + 1 - i,
        {
            let iu: usize = i as usize;
            if v[iu] == 0 {
                proof {
                    lemma_spf_basics(i as int);
                    // The entry is unset, so no prime below i divides i:
                    // i is its own smallest prime factor, hence prime.
                    assert(smallest_prime_factor(i as int) == i as int);
                    lemma_spf_eq_iff_prime(i as int);
                    lemma_mod_self_0(i as int);
                    // The exclusion clause of the inner invariant starts out
                    // vacuous: a smallest prime factor never exceeds its index.
                    assert forall|m: int|
                        2 <= m < v@.len() implies !(smallest_prime_factor(m) == i as int && m
                        < i) by {
                        lemma_spf_basics(m);
                    }
                }
                let mut j: u64 = i;
                while j <= n64
                    invariant
                        n64 == n as int,
                        v@.len() == n as int + 1,
                        2 <= i <= n64,
                        is_prime(i as int),
                        smallest_prime_factor(i as int) == i as int,
                        i <= j <= n64 + i,
                        (j as int) % (i as int) == 0,
                        forall|t: int| 0 <= t < 2 && t < v@.len() ==> v@[t] == 0,
                        forall|m: int|
                            2 <= m < v@.len()
                                ==> ((#[trigger] v@[m]) == 0 <==> (smallest_prime_factor(m) >= i
                                    && !(smallest_prime_factor(m) == i && m < j))),
                        forall|m: int|
                            2 <= m < v@.len() && (#[trigger] v@[m]) != 0
                                ==> v@[m] as int == smallest_prime_factor(m),
                    decreases n64 + i - j,
                {
                    let ju: usize = j as usize;
                    let ghost old_v = v@;
                    if v[ju] == 0 {
                        proof {
                            lemma_spf_basics(j as int);
                            // i divides j and the entry is unset, so nothing
                            // below i divides j: i is j's smallest prime factor.
                            assert(divides(i as int, j as int));
                            assert(smallest_prime_factor(j as int) == i as int);
                        }
                        v.set(ju, i as u32);
                    }
                    proof {
                        // Between consecutive multiples of i no integer has
                        // smallest prime factor i.
                        assert forall|m: int|
                            2 <= m < v@.len() && smallest_prime_factor(m) == i as int && j < m
                                && m < j + i implies false by {
                            lemma_spf_basics(m);
                            assert(m % (i as int) == 0);
                            lemma_sub_mod_noop(m, j as int, i as int);
                            lemma_small_mod(0, i as nat);
                            assert((m - j) % (i as int) == 0);
                            lemma_small_mod((m - j) as nat, i as nat);
                            assert((m - j) % (i as int) == m - j);
                        }
                        assert forall|m: int|
                            2 <= m < v@.len() implies ((#[trigger] v@[m]) == 0 <==> (
                        smallest_prime_factor(m) >= i && !(smallest_prime_factor(m) == i && m < j
                            + i))) by {
                            if m == j {
                                if old_v[m] == 0 {
                                    assert(v@[m] as int == i as int);
                                }
                            } else {
                                assert(v@[m] == old_v[m]);
                            }
                        }
                        lemma_mod_add_multiples_vanish(j as int, i as int);
                    }
                    j = j + i;
                }
                proof {
                    assert forall|m: int|
                        2 <= m < v@.len() implies ((#[trigger] v@[m]) == 0
                        <==> smallest_prime_factor(m) >= i + 1) by {
                        assert(m < j);
                    }
                }
            } else {
                proof {
                    lemma_spf_basics(i as int);
                    let p = smallest_prime_factor(i as int);
                    // The entry is set, so some prime below i divides i:
                    // i is composite and is nobody's smallest prime factor.
                    assert(p < i as int);
                    assert(!is_prime(i as int));
                    assert forall|m: int|
                        2 <= m < v@.len() implies ((#[trigger] v@[m]) == 0
                        <==> smallest_prime_factor(m) >= i + 1) by {
                        lemma_spf_basics(m);
                        assert(smallest_prime_factor(m) != i as int);
                    }
                }
            }
            i = i + 1;
        }
        proof {
            assert forall|m: int| 2 <= m < v@.len() implies (#[trigger] v@[m]) as int
                == smallest_prime_factor(m) by {
                lemma_spf_basics(m);
            }
        }
        PrimeFactorSieve { smallest_prime_factors: v }
    }

    /// Whether `n` is prime: a table entry equal to its own index.
    pub fn is_prime(&self, n: u32) -> (r: bool)
        requires
            self.wf(),
            2 <= n as int <= self.bound(),
        ensures
            r <==> is_prime(n as int),
    {
        proof {
            lemma_spf_eq_iff_prime(n as int);
        }
        self.smallest_prime_factors[n as usize] == n
    }

    /// Every prime up to the bound, in strictly increasing order.
    pub fn primes(&self) -> (r: Vec<u32>)
        requires
            self.wf(),
        ensures
            forall|k: int| 0 <= k < r@.len() ==> 2 <= (#[trigger] r@[k]) as int <= self.bound(),
            forall|k: int| 0 <= k < r@.len() ==> is_prime((#[trigger] r@[k]) as int),
            forall|k1: int, k2: int| 0 <= k1 < k2 < r@.len() ==> r@[k1] < r@[k2],
            forall|q: int|
                2 <= q <= self.bound() && is_prime(q) ==> exists|k: int|
                    0 <= k < r@.len() && r@[k] as int == q,
    {
        let mut r: Vec<u32> = Vec::new();
        let n64: u64 = (self.smallest_prime_factors.len() as u64) - 1;
        let mut i: u64 = 2;
        while i <= n64
            invariant
                self.wf(),
                n64 == self.bound(),
                2 <= i,
                n64 >= 2 ==> i <= n64 + 1,
                forall|k: int| 0 <= k < r@.len() ==> 2 <= ((#[trigger] r@[k]) as int) < i,
                forall|k: int| 0 <= k < r@.len() ==> (#[trigger] r@[k]) as int <= n64,
                forall|k: int| 0 <= k < r@.len() ==> is_prime((#[trigger] r@[k]) as int),
                forall|k1: int, k2: int| 0 <= k1 < k2 < r@.len() ==> r@[k1] < r@[k2],
                forall|q: int|
                    2 <= q < i && is_prime(q) ==> exists|k: int|
                        0 <= k < r@.len() && (#[trigger] r@[k]) as int == q,
            decreases n64 + 1 - i,
        {
            let iu: usize = i as usize;
            let entry = self.smallest_prime_factors[iu];
            let ghost old_r = r@;
            proof {
                lemma_spf_eq_iff_prime(i as int);
            }
            if entry as u64 == i {
                r.push(entry);
            }
            proof {
                assert forall|q: int|
                    2 <= q < i + 1 && is_prime(q) implies exists|k: int|
                    0 <= k < r@.len() && (#[trigger] r@[k]) as int == q by {
                    if q == i as int {
                        assert(r@[r@.len() - 1] as int == q);
                    } else {
                        let k = choose|k: int|
                            0 <= k < old_r.len() && (#[trigger] old_r[k]) as int == q;
                        assert(r@[k] as int == q);
                    }
                }
            }
            i = i + 1;
        }
        r
    }

    /// The prime factorization of `n`: primes in strictly increasing order,
    /// each paired with its exact multiplicity in `n`. Empty for `n == 1`.
    pub fn prime_factors(&self, n: u32) -> (r: Vec<(u32, u32)>)
        requires
            self.wf(),
            1 <= n as int <= self.bound(),
        ensures
            pairs_view(r@) == factorization(n as int),
    {
        let mut r: Vec<(u32, u32)> = Vec::new();
        let mut rem: u32 = n;
        proof {
            assert(factorization(n as int) =~= pairs_view(r@) + factorization(rem as int));
        }
        while rem > 1
            invariant
                self.wf(),
                1 <= rem as int <= self.bound(),
                n as int <= u32::MAX as int,
                rem as int <= n as int,
                factorization(n as int) == pairs_view(r@) + factorization(rem as int),
            decreases rem,
        {
            let p: u32 = self.smallest_prime_factors[rem as usize];
            proof {
                lemma_spf_basics(rem as int);
            }
            assert(p as int == smallest_prime_factor(rem as int));
            let ghost rem0 = rem as int;
            let ghost prev_pairs = r@;
            let mut cnt: u32 = 0;
            proof {
                lemma_pow0(p as int);
            }
            while rem % p == 0
                invariant
                    2 <= p as int <= rem0,
                    p as int == smallest_prime_factor(rem0),
                    1 <= rem as int <= rem0,
                    rem0 <= u32::MAX as int,
                    rem0 == pow(p as int, cnt as nat) * rem as int,
                    multiplicity(p as int, rem0) == cnt + multiplicity(p as int, rem as int),
                decreases rem,
            {
                proof {
                    assert(divides(p as int, rem as int));
                    lemma_divides_factor(p as int, rem as int);
                    lemma_div_decreases(rem as int, p as int);
                    let q = rem as int / p as int;
                    assert(q >= 1) by (nonlinear_arith)
                        requires
                            rem as int >= 1,
                            p as int >= 2,
                            rem as int == p as int * q,
                    ;
                    // One more factor of p moves from the remainder to the count.
                    assert(multiplicity(p as int, rem as int) == multiplicity(p as int, q) + 1);
                    assert(pow(p as int, (cnt + 1) as nat) == pow(p as int, cnt as nat) * (
                    p as int)) by {
                        lemma_pow1(p as int);
                        lemma_pow_adds(p as int, cnt as nat, 1);
                    }
                    assert(rem0 == pow(p as int, (cnt + 1) as nat) * q) by (nonlinear_arith)
                        requires
                            rem0 == pow(p as int, cnt as nat) * rem as int,
                            rem as int == p as int * q,
                            pow(p as int, (cnt + 1) as nat) == pow(p as int, cnt as nat) * (
                            p as int),
                    ;
                    // The count stays well below the remainder it divides out of.
                    lemma_pow_at_least_linear(p as int, (cnt + 1) as nat);
                    lemma_pow_positive(p as int, (cnt + 1) as nat);
                    assert(pow(p as int, (cnt + 1) as nat) <= rem0) by (nonlinear_arith)
                        requires
                            rem0 == pow(p as int, (cnt + 1) as nat) * q,
                            q >= 1,
                            pow(p as int, (cnt + 1) as nat) >= 1,
                    ;
                }
                rem = rem / p;
                cnt = cnt + 1;
            }
            proof {
                assert(multiplicity(p as int, rem as int) == 0);
                assert(multiplicity(p as int, rem0) == cnt as int);
                if cnt == 0 {
                    assert(rem0 == 1 * rem as int);
                    assert(false);
                }
                let pk = pow(p as int, cnt as nat);
                lemma_pow_positive(p as int, cnt as nat);
                assert(rem0 / pk == rem as int) by {
                    lemma_div_multiples_vanish(rem as int, pk);
                }
                // Peel one grouped prime power off the factorization.
                assert(factorization(rem0) == seq![(p as int, cnt as int)] + factorization(
                    rem as int,
                ));
                assert((rem as int) < rem0) by (nonlinear_arith)
                    requires
                        rem0 == pk * rem as int,
                        pk >= 2,
                        rem as int >= 1,
                ;
            }
            r.push((p, cnt));
            proof {
                assert(pairs_view(r@) =~= pairs_view(prev_pairs).push((p as int, cnt as int)));
                assert(factorization(n as int) =~= pairs_view(r@) + factorization(rem as int));
            }
        }
        proof {
            assert(factorization(rem as int) =~= Seq::<(int, int)>::empty());
            assert(factorization(n as int) =~= pairs_view(r@));
        }
        r
    }

    /// The number of positive divisors of `n`: the product of
    /// multiplicity + 1 over the prime factorization.
    pub fn factors_count(&self, n: u32) -> (r: u32)
        requires
            self.wf(),
            1 <= n as int <= self.bound(),
        ensures
            r as int == divisor_count(factorization(n as int)),
            r >= 1,
    {
        let pf = self.prime_factors(n);
        proof {
            lemma_factorization_props(n as int);
        }
        let ghost fs = factorization(n as int);
        let mut acc: u32 = 1;
        let mut t: usize = 0;
        proof {
            assert(fs.take(0) =~= Seq::<(int, int)>::empty());
        }
        while t < pf.len()
            invariant
                pairs_view(pf@) == fs,
                valid_factor_seq(fs),
                pairs_product(fs) == n as int,
                1 <= n as int <= u32::MAX as int,
                t <= pf@.len(),
                acc as int == divisor_count(fs.take(t as int)),
                acc >= 1,
            decreases pf@.len() - t,
        {
            let pair = pf[t];
            let m = pair.1;
            proof {
                let ti = t as int;
                assert(fs[ti] == (pair.0 as int, pair.1 as int));
                lemma_valid_take(fs, ti + 1);
                lemma_divisor_count_bounds(fs.take(ti + 1));
                lemma_product_take(fs, ti + 1);
                assert(fs.take(ti + 1).drop_last() =~= fs.take(ti));
                assert(fs.take(ti + 1).last() == fs[ti]);
                assert(divisor_count(fs.take(ti + 1)) == acc as int * (m as int + 1));
                assert(m as int + 1 <= acc as int * (m as int + 1)) by (nonlinear_arith)
                    requires
                        acc as int >= 1,
                        m as int >= 1,
                ;
            }
            acc = acc * (m + 1);
            t = t + 1;
        }
        proof {
            assert(fs.take(pf@.len() as int) =~= fs);
        }
        acc
    }

    /// Every positive divisor of `n`, each exactly once: the Cartesian
    /// product of the prime-power choices, enumerated block by block.
    #[verifier::loop_isolation(false)]
    pub fn factors(&self, n: u32) -> (r: Vec<u32>)
        requires
            self.wf(),
            1 <= n as int <= self.bound(),
        ensures
            divisors_view(r@) == divisor_list(factorization(n as int)),
    {
        let pf = self.prime_factors(n);
        proof {
            lemma_factorization_props(n as int);
        }
        let ghost fs = factorization(n as int);
        let mut divisors: Vec<u32> = Vec::new();
        divisors.push(1u32);
        proof {
            assert(fs.take(0) =~= Seq::<(int, int)>::empty());
            assert(divisor_list(fs.take(0)) =~= seq![1int]);
            assert(divisors_view(divisors@) =~= seq![1int]);
        }
        let mut t: usize = 0;
        while t < pf.len()
            invariant
                t <= pf@.len(),
                divisors_view(divisors@) == divisor_list(fs.take(t as int)),
            decreases pf@.len() - t,
        {
            let pair = pf[t];
            let p = pair.0;
            let m = pair.1;
            let ghost ti = t as int;
            let ghost ds = divisor_list(fs.take(ti));
            proof {
                assert(fs[ti] == (p as int, m as int));
                lemma_valid_take(fs, ti);
                lemma_valid_take(fs, ti + 1);
                lemma_divisor_list_elements(fs.take(ti));
                lemma_product_take(fs, ti);
                lemma_product_take(fs, ti + 1);
                assert(fs.take(ti + 1).drop_last() =~= fs.take(ti));
                assert(fs.take(ti + 1).last() == fs[ti]);
                lemma_pairs_product_snoc(fs.take(ti + 1));
                lemma_pow_at_least_linear(p as int, m as nat);
                lemma_pow_positive(p as int, m as nat);
                assert(pow(p as int, m as nat) <= pairs_product(fs.take(ti + 1)))
                    by (nonlinear_arith)
                    requires
                        pairs_product(fs.take(ti + 1)) == pairs_product(fs.take(ti)) * pow(
                            p as int,
                            m as nat,
                        ),
                        pairs_product(fs.take(ti)) >= 1,
                        pow(p as int, m as nat) >= 1,
                ;
            }
            let mut next: Vec<u32> = Vec::new();
            let mut e: u32 = 0;
            let mut pe: u32 = 1;
            proof {
                lemma_pow0(p as int);
                assert(expand_upto(ds, p as int, 0) =~= Seq::<int>::empty());
                assert(divisors_view(next@) =~= Seq::<int>::empty());
            }
            while e <= m
                invariant
                    e as int <= m as int + 1,
                    e <= m ==> pe as int == pow(p as int, e as nat),
                    divisors_view(next@) == expand_upto(ds, p as int, e as nat),
                decreases m as int + 1 - e as int,
            {
                let ghost block = divisors_view(next@);
                proof {
                    assert(is_prime(p as int));
                    lemma_pow_adds(p as int, e as nat, (m - e) as nat);
                    lemma_pow_positive(p as int, (m - e) as nat);
                    lemma_pow_positive(p as int, e as nat);
                    lemma_divides_witness(pow(p as int, e as nat), pow(p as int, (m - e) as nat));
                }
                let mut kk: usize = 0;
                while kk < divisors.len()
                    invariant
                        kk <= divisors@.len(),
                        divisors_view(next@) == block + scale(
                            ds,
                            pow(p as int, e as nat),
                        ).take(kk as int),
                    decreases divisors@.len() - kk,
                {
                    let d = divisors[kk];
                    proof {
                        let kki = kk as int;
                        assert(ds[kki] == d as int);
                        assert(1 <= ds[kki]);
                        assert(divides(ds[kki], pairs_product(fs.take(ti))));
                        lemma_divides_mul(
                            ds[kki],
                            pairs_product(fs.take(ti)),
                            pow(p as int, e as nat),
                            pow(p as int, m as nat),
                        );
                        lemma_pow_positive(p as int, e as nat);
                        assert(ds[kki] * pow(p as int, e as nat) >= 1) by (nonlinear_arith)
                            requires
                                ds[kki] >= 1,
                                pow(p as int, e as nat) >= 1,
                        ;
                        lemma_divides_le(
                            ds[kki] * pow(p as int, e as nat),
                            pairs_product(fs.take(ti + 1)),
                        );
                        assert(scale(ds, pow(p as int, e as nat))[kki] == ds[kki] * pow(
                            p as int,
                            e as nat,
                        ));
                    }
                    let ghost old_next = next@;
                    let dv: u32 = d * pe;
                    next.push(dv);
                    proof {
                        let kki = kk as int;
                        let pw = pow(p as int, e as nat);
                        let target = block + scale(ds, pw).take(kki + 1);
                        assert(next@ == old_next.push(dv));
                        assert(dv as int == ds[kki] * pw);
                        assert(scale(ds, pw).take(kki + 1)[kki] == scale(ds, pw)[kki]);
                        assert(divisors_view(next@).len() == old_next.len() + 1);
                        assert(target.len() == block.len() + kki + 1);
                        assert forall|ii: int|
                            0 <= ii < divisors_view(next@).len() implies divisors_view(next@)[ii]
                            == target[ii] by {
                            assert(divisors_view(next@)[ii] == next@[ii] as int);
                            if ii < old_next.len() {
                                assert(next@[ii] == old_next[ii]);
                                assert(divisors_view(old_next)[ii] == old_next[ii] as int);
                                assert(divisors_view(old_next)[ii] == (block + scale(ds, pw).take(
                                    kki,
                                ))[ii]);
                                if ii >= block.len() {
                                    assert(scale(ds, pw).take(kki)[ii - block.len()] == scale(
                                        ds,
                                        pw,
                                    ).take(kki + 1)[ii - block.len()]);
                                }
                            } else {
                                assert(next@[ii] == dv);
                                assert(target[ii] == scale(ds, pw).take(kki + 1)[kki]);
                            }
                        }
                        assert(divisors_view(next@) =~= target);
                    }
                    kk = kk + 1;
                }
                proof {
                    assert(scale(ds, pow(p as int, e as nat)).take(ds.len() as int) =~= scale(
                        ds,
                        pow(p as int, e as nat),
                    ));
                    assert(divisors_view(next@) =~= expand_upto(
                        ds,
                        p as int,
                        (e + 1) as nat,
                    ));
                }
                if e < m {
                    proof {
                        lemma_pow1(p as int);
                        lemma_pow_adds(p as int, e as nat, 1);
                        lemma_pow_adds(p as int, (e + 1) as nat, (m - e - 1) as nat);
                        lemma_pow_positive(p as int, (m - e - 1) as nat);
                        lemma_pow_positive(p as int, (e + 1) as nat);
                        assert(pow(p as int, (e + 1) as nat) <= pow(p as int, m as nat))
                            by (nonlinear_arith)
                            requires
                                pow(p as int, m as nat) == pow(p as int, (e + 1) as nat) * pow(
                                    p as int,
                                    (m - e - 1) as nat,
                                ),
                                pow(p as int, (e + 1) as nat) >= 1,
                                pow(p as int, (m - e - 1) as nat) >= 1,
                        ;
                    }
                    pe = pe * p;
                }
                e = e + 1;
            }
            divisors = next;
            proof {
                assert(divisor_list(fs.take(ti + 1)) == expand_upto(ds, p as int, (m + 1) as nat));
            }
            t = t + 1;
        }
        proof {
            assert(fs.take(pf@.len() as int) =~= fs);
        }
        divisors
    }

    /// Whether `a` and `b` are coprime: their factorizations are walked in
    /// step and share no prime.
    pub fn coprime(&self, a: u32, b: u32) -> (r: bool)
        requires
            self.wf(),
            1 <= a as int <= self.bound(),
            1 <= b as int <= self.bound(),
        ensures
            r <==> no_common_prime(factorization(a as int), factorization(b as int)),
    {
        let fa = self.prime_factors(a);
        let fb = self.prime_factors(b);
        proof {
            lemma_factorization_props(a as int);
            lemma_factorization_props(b as int);
        }
        let ghost sa = factorization(a as int);
        let ghost sb = factorization(b as int);
        let mut ia: usize = 0;
        let mut ib: usize = 0;
        while ia < fa.len() && ib < fb.len()
            invariant
                sa == factorization(a as int),
                sb == factorization(b as int),
                pairs_view(fa@) == sa,
                pairs_view(fb@) == sb,
                valid_factor_seq(sa),
                valid_factor_seq(sb),
                ia <= fa@.len(),
                ib <= fb@.len(),
                forall|x: int, y: int|
                    0 <= x < ia && 0 <= y < sb.len() ==> (#[trigger] sa[x]).0 != (
                    #[trigger] sb[y]).0,
                forall|x: int, y: int|
                    0 <= x < sa.len() && 0 <= y < ib ==> (#[trigger] sa[x]).0 != (
                    #[trigger] sb[y]).0,
            decreases fa@.len() - ia + fb@.len() - ib,
        {
            let pa = fa[ia].0;
            let pb = fb[ib].0;
            proof {
                assert(sa[ia as int] == (fa@[ia as int].0 as int, fa@[ia as int].1 as int));
                assert(sb[ib as int] == (fb@[ib as int].0 as int, fb@[ib as int].1 as int));
            }
            if pa == pb {
                proof {
                    assert(!no_common_prime(sa, sb)) by {
                        assert(sa[ia as int].0 == sb[ib as int].0);
                    }
                }
                return false;
            } else if pa < pb {
                proof {
                    // pa is smaller than every prime still ahead in sb, and
                    // different from every prime already passed.
                    assert forall|y: int| 0 <= y < sb.len() implies sa[ia as int].0 != (
                    #[trigger] sb[y]).0 by {
                        if ib as int <= y {
                            assert(sb[ib as int].0 <= sb[y].0);
                        }
                    }
                }
                ia = ia + 1;
            } else {
                proof {
                    let ghost ibi = ib as int;
                    assert forall|x: int| 0 <= x < sa.len() implies (#[trigger] sa[x]).0
                        != sb[ibi].0 by {
                        if ia as int <= x {
                            assert(sa[ia as int].0 <= sa[x].0);
                        }
                    }
                }
                ib = ib + 1;
            }
        }
        true
    }
}

} // verus!
