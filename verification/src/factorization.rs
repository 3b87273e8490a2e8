//! The canonical prime factorization of an integer, as a specification-level
//! sequence of (prime, multiplicity) pairs, with its defining lemmas.

use vstd::prelude::*;
use vstd::arithmetic::div_mod::{
    lemma_div_decreases, lemma_div_multiples_vanish, lemma_div_nonincreasing,
    lemma_div_pos_is_pos, lemma_mod_self_0,
};
use vstd::arithmetic::mul::{lemma_mul_is_associative, lemma_mul_is_commutative};
use vstd::arithmetic::power::{
    lemma_pow0, lemma_pow1, lemma_pow_adds, lemma_pow_increases, lemma_pow_positive, pow,
};
use crate::divisibility::{
    divides, is_prime, lemma_divides_factor, lemma_divides_le, lemma_divides_transitive,
    lemma_divides_witness, lemma_euclid, lemma_prime_divides_prime_power, lemma_spf_basics,
    smallest_prime_factor,
};

verus! {

/// How many times `p` divides `n`: the exponent of `p` in `n`.
pub open spec fn multiplicity(p: int, n: int) -> nat
    recommends
        p >= 2,
        n >= 1,
    decreases n,
{
    if p < 2 || n < 1 || !divides(p, n) {
        0
    } else {
        proof {
            lemma_div_decreases(n, p);
            lemma_div_pos_is_pos(n, p);
        }
        (multiplicity(p, n / p) + 1) as nat
    }
}

/// The prime factorization of `n`, ordered by ascending prime: each entry
/// pairs a prime with its multiplicity in `n`. Empty for `n < 2`.
pub open spec fn factorization(n: int) -> Seq<(int, int)>
    decreases n,
{
    if n < 2 {
        Seq::empty()
    } else {
        let p = smallest_prime_factor(n);
        let m = multiplicity(p, n);
        proof {
            lemma_spf_basics(n);
            assert(m >= 1);
            lemma_pow1(p);
            lemma_pow_increases(p as nat, 1, m);
            lemma_div_decreases(n, pow(p, m));
            lemma_div_pos_is_pos(n, pow(p, m));
        }
        seq![(p, m as int)] + factorization(n / pow(p, m))
    }
}

/// The product of `p^m` over a sequence of (prime, multiplicity) pairs.
pub open spec fn pairs_product(fs: Seq<(int, int)>) -> int
    decreases fs.len(),
{
    if fs.len() == 0 {
        1
    } else {
        pow(fs[0].0, fs[0].1 as nat) * pairs_product(fs.drop_first())
    }
}

/// The product of `m + 1` over a sequence of (prime, multiplicity) pairs:
/// the number of divisors the factored value has.
pub open spec fn divisor_count(fs: Seq<(int, int)>) -> int
    decreases fs.len(),
{
    if fs.len() == 0 {
        1
    } else {
        divisor_count(fs.drop_last()) * (fs.last().1 + 1)
    }
}

/// A well-formed factorization: every entry is a prime with multiplicity at
/// least 1, and the primes are strictly increasing.
pub open spec fn valid_factor_seq(fs: Seq<(int, int)>) -> bool {
    &&& forall|i: int| 0 <= i < fs.len() ==> is_prime((#[trigger] fs[i]).0)
    &&& forall|i: int| 0 <= i < fs.len() ==> (#[trigger] fs[i]).1 >= 1
    &&& forall|i: int, j: int|
        0 <= i < j < fs.len() ==> (#[trigger] fs[i]).0 < (#[trigger] fs[j]).0
}

/// A base of at least 2 raised to `e` is at least `e + 1`.
pub proof fn lemma_pow_at_least_linear(p: int, e: nat)
    requires
        p >= 2,
    ensures
        pow(p, e) >= e + 1,
    decreases e,
{
    reveal(pow);
    if e == 0 {
    } else {
        lemma_pow_at_least_linear(p, (e - 1) as nat);
        assert(pow(p, e) == p * pow(p, (e - 1) as nat));
        assert(p * pow(p, (e - 1) as nat) >= e + 1) by (nonlinear_arith)
            requires
                p >= 2,
                pow(p, (e - 1) as nat) >= e,
                e >= 1,
        ;
    }
}

/// Dividing out `p` as often as it divides `n` leaves a positive cofactor
/// that `p` no longer divides, and `n` is exactly `p^multiplicity` times it.
pub proof fn lemma_multiplicity_decompose(p: int, n: int)
    requires
        p >= 2,
        n >= 1,
    ensures
        pow(p, multiplicity(p, n)) >= 1,
        n == pow(p, multiplicity(p, n)) * (n / pow(p, multiplicity(p, n))),
        n / pow(p, multiplicity(p, n)) >= 1,
        !divides(p, n / pow(p, multiplicity(p, n))),
        divides(p, n) ==> multiplicity(p, n) >= 1,
        !divides(p, n) ==> multiplicity(p, n) == 0,
    decreases n,
{
    lemma_pow_positive(p, multiplicity(p, n));
    if !divides(p, n) {
        assert(multiplicity(p, n) == 0);
        assert(pow(p, 0) == 1) by {
            lemma_pow0(p);
        }
        assert(n / 1 == n) by {
            lemma_div_multiples_vanish(n, 1);
        }
    } else {
        lemma_div_decreases(n, p);
        lemma_div_pos_is_pos(n, p);
        let q = n / p;
        lemma_divides_factor(p, n);
        assert(q >= 1) by (nonlinear_arith)
            requires
                n >= 1,
                p >= 2,
                n == p * q,
        ;
        lemma_multiplicity_decompose(p, q);
        let m1 = multiplicity(p, q);
        assert(multiplicity(p, n) == m1 + 1);
        let r = q / pow(p, m1);
        assert(q == pow(p, m1) * r);
        assert(n == (p * pow(p, m1)) * r) by {
            lemma_mul_is_associative(p, pow(p, m1), r);
        }
        assert(p * pow(p, m1) == pow(p, m1 + 1)) by {
            lemma_pow1(p);
            lemma_pow_adds(p, 1, m1);
        }
        assert(n == pow(p, m1 + 1) * r);
        lemma_pow_positive(p, m1 + 1);
        assert(n / pow(p, m1 + 1) == r) by {
            lemma_div_multiples_vanish(r, pow(p, m1 + 1));
        }
    }
}

/// The defining properties of `factorization(n)`: it is well formed, its
/// head prime is the smallest prime factor of `n`, and multiplying the
/// prime powers back together returns `n` exactly.
pub proof fn lemma_factorization_props(n: int)
    requires
        n >= 1,
    ensures
        valid_factor_seq(factorization(n)),
        pairs_product(factorization(n)) == n,
        n == 1 <==> factorization(n).len() == 0,
        n >= 2 ==> factorization(n)[0].0 == smallest_prime_factor(n),
        n >= 2 ==> factorization(n)[0].1 == multiplicity(smallest_prime_factor(n), n),
        forall|i: int|
            0 <= i < factorization(n).len()
                ==> n >= 2 && (#[trigger] factorization(n)[i]).0 >= smallest_prime_factor(n),
    decreases n,
{
    if n == 1 {
        assert(factorization(1) =~= Seq::<(int, int)>::empty());
    } else {
        let p = smallest_prime_factor(n);
        lemma_spf_basics(n);
        let m = multiplicity(p, n);
        lemma_multiplicity_decompose(p, n);
        assert(m >= 1);
        lemma_pow1(p);
        lemma_pow_increases(p as nat, 1, m);
        lemma_pow_positive(p, m);
        let pk = pow(p, m);
        let n2 = n / pk;
        lemma_div_decreases(n, pk);
        let fs = factorization(n);
        let fs2 = factorization(n2);
        assert(fs == seq![(p, m as int)] + fs2);
        assert(fs[0] == (p, m as int));
        assert(forall|k: int| 1 <= k < fs.len() ==> fs[k] == fs2[k - 1]);
        lemma_factorization_props(n2);

        // Every prime in the tail factorization exceeds p.
        if n2 >= 2 {
            let p2 = smallest_prime_factor(n2);
            lemma_spf_basics(n2);
            assert(divides(pk, n)) by {
                lemma_divides_witness(pk, n2);
                lemma_mul_is_commutative(pk, n2);
            }
            assert(divides(n2, n)) by {
                lemma_divides_witness(n2, pk);
                lemma_mul_is_commutative(n2, pk);
                assert(n == n2 * pk) by {
                    lemma_mul_is_commutative(pk, n2);
                }
            }
            lemma_divides_transitive(p2, n2, n);
            // p2 divides n, so p2 >= p; and p does not divide n2, so p2 != p.
            assert(p2 >= p);
            assert(p2 != p);
            assert(p2 > p);
            assert(forall|i: int|
                0 <= i < fs2.len() ==> (#[trigger] fs2[i]).0 >= p2);
        }

        // Well-formedness of the combined sequence.
        assert forall|i: int, j: int|
            0 <= i < j < fs.len() implies (#[trigger] fs[i]).0 < (#[trigger] fs[j]).0 by {
            if i == 0 {
                assert(fs[j] == fs2[j - 1]);
            } else {
                assert(fs[i] == fs2[i - 1] && fs[j] == fs2[j - 1]);
            }
        }

        // The product telescopes.
        assert(fs.drop_first() =~= fs2);
        assert(pairs_product(fs) == pow(p, m) * pairs_product(fs2));
        assert(pairs_product(fs) == pk * n2);
        assert(pk * n2 == n) by {
            lemma_mul_is_commutative(pk, n2);
        }
    }
}

/// A prime absent from a well-formed factorization does not divide its
/// product.
pub proof fn lemma_prime_not_dividing_product(fs: Seq<(int, int)>, q: int)
    requires
        valid_factor_seq(fs),
        is_prime(q),
        forall|i: int| 0 <= i < fs.len() ==> (#[trigger] fs[i]).0 != q,
    ensures
        !divides(q, pairs_product(fs)),
    decreases fs.len(),
{
    if fs.len() == 0 {
        if divides(q, 1) {
            lemma_divides_le(q, 1);
        }
    } else {
        let rest = fs.drop_first();
        assert(valid_factor_seq(rest)) by {
            assert(forall|i: int| 0 <= i < rest.len() ==> rest[i] == fs[i + 1]);
        }
        assert(forall|i: int| 0 <= i < rest.len() ==> (#[trigger] rest[i]).0 != q) by {
            assert(forall|i: int| 0 <= i < rest.len() ==> rest[i] == fs[i + 1]);
        }
        let p0 = fs[0].0;
        let m0 = fs[0].1;
        let hd = pow(p0, m0 as nat);
        assert(is_prime(p0) && m0 >= 1);
        lemma_pow_positive(p0, m0 as nat);
        lemma_divisor_count_bounds(rest);
        assert(pairs_product(fs) == hd * pairs_product(rest));
        if divides(q, pairs_product(fs)) {
            lemma_euclid(q, hd, pairs_product(rest));
            if divides(q, hd) {
                lemma_prime_divides_prime_power(q, p0, m0 as nat);
                assert(false);
            } else {
                lemma_prime_not_dividing_product(rest, q);
                assert(false);
            }
        }
    }
}

/// Each prime listed in a well-formed factorization divides its product.
pub proof fn lemma_factor_prime_divides(fs: Seq<(int, int)>, i: int)
    requires
        valid_factor_seq(fs),
        0 <= i < fs.len(),
    ensures
        divides(fs[i].0, pairs_product(fs)),
    decreases fs.len(),
{
    reveal(pow);
    let rest = fs.drop_first();
    assert(valid_factor_seq(rest)) by {
        assert(forall|q: int| 0 <= q < rest.len() ==> rest[q] == fs[q + 1]);
    }
    let p0 = fs[0].0;
    let m0 = fs[0].1;
    lemma_divisor_count_bounds(rest);
    lemma_pow_positive(p0, m0 as nat);
    if i == 0 {
        lemma_pow_positive(p0, (m0 - 1) as nat);
        assert(pow(p0, m0 as nat) == p0 * pow(p0, (m0 - 1) as nat));
        assert(pairs_product(fs) == p0 * (pow(p0, (m0 - 1) as nat) * pairs_product(rest)))
            by (nonlinear_arith)
            requires
                pairs_product(fs) == pow(p0, m0 as nat) * pairs_product(rest),
                pow(p0, m0 as nat) == p0 * pow(p0, (m0 - 1) as nat),
        ;
        lemma_divides_witness(p0, pow(p0, (m0 - 1) as nat) * pairs_product(rest));
    } else {
        assert(rest[i - 1] == fs[i]);
        lemma_factor_prime_divides(rest, i - 1);
        lemma_divides_witness(pairs_product(rest), pow(p0, m0 as nat));
        lemma_mul_is_commutative(pairs_product(rest), pow(p0, m0 as nat));
        assert(divides(pairs_product(rest), pairs_product(fs)));
        lemma_divides_transitive(fs[i].0, pairs_product(rest), pairs_product(fs));
    }
}

/// Every prime dividing `n` is listed in the factorization of `n`.
pub proof fn lemma_prime_divisor_in_factorization(n: int, q: int)
    requires
        n >= 1,
        is_prime(q),
        divides(q, n),
    ensures
        exists|i: int|
            0 <= i < factorization(n).len() && (#[trigger] factorization(n)[i]).0 == q,
    decreases n,
{
    if n == 1 {
        lemma_divides_le(q, 1);
        assert(false);
    } else {
        let p = smallest_prime_factor(n);
        lemma_spf_basics(n);
        let m = multiplicity(p, n);
        lemma_multiplicity_decompose(p, n);
        assert(m >= 1);
        lemma_pow1(p);
        lemma_pow_increases(p as nat, 1, m);
        lemma_pow_positive(p, m);
        let pk = pow(p, m);
        let n2 = n / pk;
        lemma_div_decreases(n, pk);
        let fsn = factorization(n);
        assert(fsn == seq![(p, m as int)] + factorization(n2));
        if q == p {
            assert(fsn[0].0 == q);
        } else {
            lemma_euclid(q, pk, n2);
            if divides(q, pk) {
                lemma_prime_divides_prime_power(q, p, m);
                assert(false);
            }
            lemma_prime_divisor_in_factorization(n2, q);
            let i2 = choose|i: int|
                0 <= i < factorization(n2).len() && (#[trigger] factorization(n2)[i]).0 == q;
            assert(fsn[i2 + 1] == factorization(n2)[i2]);
        }
    }
}

/// The product over a factorization splits at the last entry.
pub proof fn lemma_pairs_product_snoc(fs: Seq<(int, int)>)
    requires
        fs.len() >= 1,
    ensures
        pairs_product(fs) == pairs_product(fs.drop_last())
            * pow(fs.last().0, fs.last().1 as nat),
    decreases fs.len(),
{
    let pw = pow(fs.last().0, fs.last().1 as nat);
    if fs.len() == 1 {
        assert(fs.drop_first() =~= Seq::<(int, int)>::empty());
        assert(fs.drop_last() =~= Seq::<(int, int)>::empty());
        assert(pairs_product(Seq::<(int, int)>::empty()) == 1);
        assert(fs[0] == fs.last());
        assert(pairs_product(fs) == pow(fs[0].0, fs[0].1 as nat) * 1);
    } else {
        let tail = fs.drop_first();
        lemma_pairs_product_snoc(tail);
        assert(tail.last() == fs.last());
        assert(tail.drop_last() =~= fs.drop_last().drop_first());
        let head = pow(fs[0].0, fs[0].1 as nat);
        assert(fs.drop_last()[0] == fs[0]);
        assert(pairs_product(fs.drop_last()) == head * pairs_product(fs.drop_last().drop_first()));
        assert(pairs_product(fs) == head * (pairs_product(tail.drop_last()) * pw));
        assert(head * (pairs_product(tail.drop_last()) * pw) == (head * pairs_product(
            tail.drop_last(),
        )) * pw) by {
            lemma_mul_is_associative(head, pairs_product(tail.drop_last()), pw);
        }
    }
}

/// A prefix of a well-formed factorization is well formed.
pub proof fn lemma_valid_take(fs: Seq<(int, int)>, i: int)
    requires
        valid_factor_seq(fs),
        0 <= i <= fs.len(),
    ensures
        valid_factor_seq(fs.take(i)),
{
    assert(forall|k: int| 0 <= k < i ==> fs.take(i)[k] == fs[k]);
}

/// Over a well-formed factorization, the divisor count is at least 1 and at
/// most the factored value, and the value itself is at least 1.
pub proof fn lemma_divisor_count_bounds(fs: Seq<(int, int)>)
    requires
        valid_factor_seq(fs),
    ensures
        1 <= divisor_count(fs),
        divisor_count(fs) <= pairs_product(fs),
        pairs_product(fs) >= 1,
    decreases fs.len(),
{
    if fs.len() == 0 {
    } else {
        let dl = fs.drop_last();
        assert(valid_factor_seq(dl)) by {
            assert(forall|k: int| 0 <= k < dl.len() ==> dl[k] == fs[k]);
        }
        lemma_divisor_count_bounds(dl);
        lemma_pairs_product_snoc(fs);
        let p = fs.last().0;
        let m = fs.last().1;
        assert(is_prime(p) && m >= 1);
        lemma_pow_at_least_linear(p, m as nat);
        lemma_pow_positive(p, m as nat);
        assert(divisor_count(fs) == divisor_count(dl) * (m + 1));
        assert(1 <= divisor_count(dl) * (m + 1)) by (nonlinear_arith)
            requires
                divisor_count(dl) >= 1,
                m >= 1,
        ;
        assert(divisor_count(dl) * (m + 1) <= pairs_product(dl) * pow(p, m as nat))
            by (nonlinear_arith)
            requires
                1 <= divisor_count(dl) <= pairs_product(dl),
                1 <= m + 1 <= pow(p, m as nat),
        ;
    }
}

/// The product of a prefix of a well-formed factorization divides, and is
/// bounded by, the product of the whole.
pub proof fn lemma_product_take(fs: Seq<(int, int)>, i: int)
    requires
        valid_factor_seq(fs),
        0 <= i <= fs.len(),
    ensures
        1 <= pairs_product(fs.take(i)),
        divides(pairs_product(fs.take(i)), pairs_product(fs)),
        pairs_product(fs.take(i)) <= pairs_product(fs),
    decreases fs.len(),
{
    lemma_valid_take(fs, i);
    lemma_divisor_count_bounds(fs.take(i));
    lemma_divisor_count_bounds(fs);
    if i == fs.len() {
        assert(fs.take(i) =~= fs);
        lemma_mod_self_0(pairs_product(fs));
    } else {
        let dl = fs.drop_last();
        assert(valid_factor_seq(dl)) by {
            assert(forall|k: int| 0 <= k < dl.len() ==> dl[k] == fs[k]);
        }
        assert(fs.take(i) =~= dl.take(i));
        lemma_product_take(dl, i);
        lemma_pairs_product_snoc(fs);
        let p = fs.last().0;
        let m = fs.last().1;
        lemma_pow_positive(p, m as nat);
        lemma_pow_at_least_linear(p, m as nat);
        lemma_divisor_count_bounds(dl);
        let a = pairs_product(dl.take(i));
        let b = pairs_product(dl);
        let pw = pow(p, m as nat);
        lemma_divides_factor(a, b);
        let k = b / a;
        assert(b * pw == a * (k * pw)) by (nonlinear_arith)
            requires
                b == a * k,
        ;
        lemma_divides_witness(a, k * pw);
        assert(pairs_product(fs) == b * pw);
        assert(b * pw >= b) by (nonlinear_arith)
            requires
                b >= 1,
                pw >= 1,
        ;
    }
}

} // verus!
