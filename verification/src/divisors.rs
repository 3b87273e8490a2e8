//! Divisor enumeration over a prime factorization: the divisor list is the
//! Cartesian product of the prime-power choices, one block per exponent.

use vstd::prelude::*;
use vstd::arithmetic::div_mod::{
    lemma_fundamental_div_mod, lemma_mod_division_less_than_divisor, lemma_mod_self_0,
    lemma_multiply_divide_lt,
};
use vstd::arithmetic::mul::{
    lemma_mul_equality_converse, lemma_mul_is_associative, lemma_mul_is_commutative,
    lemma_mul_nonnegative,
};
use vstd::arithmetic::power::{lemma_pow1, lemma_pow_adds, lemma_pow_positive, pow};
use crate::divisibility::{
    divides, is_prime, lemma_coprime_cancel_prime_power, lemma_divides_factor, lemma_divides_le,
    lemma_divides_mul, lemma_divides_transitive, lemma_divides_witness,
};
use crate::factorization::{
    divisor_count, factorization, lemma_divisor_count_bounds, lemma_factorization_props,
    lemma_multiplicity_decompose, lemma_pairs_product_snoc, lemma_prime_not_dividing_product,
    multiplicity, pairs_product, valid_factor_seq,
};

verus! {

/// Every element of `ds` multiplied by `f`.
pub open spec fn scale(ds: Seq<int>, f: int) -> Seq<int> {
    ds.map_values(|d: int| d * f)
}

/// The elements of `ds` multiplied by each power of `p` below `k`, block by
/// block: `ds * p^0`, then `ds * p^1`, and so on through `ds * p^(k-1)`.
pub open spec fn expand_upto(ds: Seq<int>, p: int, k: nat) -> Seq<int>
    decreases k,
{
    if k == 0 {
        Seq::empty()
    } else {
        expand_upto(ds, p, (k - 1) as nat) + scale(ds, pow(p, (k - 1) as nat))
    }
}

/// Every positive divisor of the value a factorization describes: for each
/// entry (p, m), each already-built divisor is multiplied by each power of
/// `p` from `p^0` through `p^m`.
pub open spec fn divisor_list(fs: Seq<(int, int)>) -> Seq<int>
    decreases fs.len(),
{
    if fs.len() == 0 {
        seq![1]
    } else {
        expand_upto(divisor_list(fs.drop_last()), fs.last().0, (fs.last().1 + 1) as nat)
    }
}

/// The expansion has one block of `ds` per power, and each slot holds the
/// matching element of `ds` times the matching power of `p`.
pub proof fn lemma_expand_upto_shape(ds: Seq<int>, p: int, k: nat)
    ensures
        expand_upto(ds, p, k).len() == k * ds.len(),
        forall|e: int, t: int|
            0 <= e < k && 0 <= t < ds.len() ==> #[trigger] (expand_upto(ds, p, k)[e * ds.len()
                + t]) == ds[t] * pow(p, e as nat),
    decreases k,
{
    let ex = expand_upto(ds, p, k);
    let li = ds.len() as int;
    if k == 0 {
        assert(0 * li == 0) by (nonlinear_arith);
    } else {
        let prev = expand_upto(ds, p, (k - 1) as nat);
        lemma_expand_upto_shape(ds, p, (k - 1) as nat);
        assert(ex.len() == prev.len() + li);
        assert((k - 1) * li + li == k * li) by (nonlinear_arith);
        assert forall|e: int, t: int|
            0 <= e < k && 0 <= t < li implies #[trigger] (ex[e * li + t]) == ds[t] * pow(
            p,
            e as nat,
        ) by {
            lemma_mul_nonnegative(e, li);
            if e < k - 1 {
                assert(e * li + t < (k - 1) * li) by (nonlinear_arith)
                    requires
                        0 <= e < (k - 1) as int,
                        0 <= t < li,
                ;
                assert(ex[e * li + t] == prev[e * li + t]);
            } else {
                assert(e == k - 1);
                assert(ex[e * li + t] == scale(ds, pow(p, (k - 1) as nat))[t]) by {
                    assert(e * li + t - prev.len() == t);
                }
            }
        }
    }
}

/// Each index of an expansion decomposes into its power block and its slot.
pub proof fn lemma_expand_upto_form(ds: Seq<int>, p: int, k: nat, i: int)
    requires
        ds.len() >= 1,
        0 <= i < expand_upto(ds, p, k).len(),
    ensures
        0 <= i % (ds.len() as int) < ds.len(),
        0 <= i / (ds.len() as int) < k,
        expand_upto(ds, p, k)[i] == ds[i % (ds.len() as int)] * pow(
            p,
            (i / (ds.len() as int)) as nat,
        ),
{
    let li = ds.len() as int;
    lemma_expand_upto_shape(ds, p, k);
    assert(expand_upto(ds, p, k).len() == k * li);
    lemma_fundamental_div_mod(i, li);
    lemma_mod_division_less_than_divisor(i, li);
    let e = i / li;
    let t = i % li;
    assert(e >= 0) by (nonlinear_arith)
        requires
            i == li * e + t,
            0 <= t < li,
            i >= 0,
            li >= 1,
    ;
    assert(li * (k as int) == k * li) by {
        lemma_mul_is_commutative(li, k as int);
    }
    lemma_multiply_divide_lt(i, li, k as int);
    assert(e < k);
    assert(i == e * li + t) by {
        lemma_mul_is_commutative(li, e);
    }
    assert(expand_upto(ds, p, k)[e * li + t] == ds[t] * pow(p, e as nat));
}

/// Over a well-formed factorization the divisor list is as long as the
/// divisor count, and every entry is positive and divides the product.
pub proof fn lemma_divisor_list_elements(fs: Seq<(int, int)>)
    requires
        valid_factor_seq(fs),
    ensures
        divisor_list(fs).len() == divisor_count(fs),
        forall|i: int|
            0 <= i < divisor_list(fs).len() ==> 1 <= #[trigger] divisor_list(fs)[i],
        forall|i: int|
            0 <= i < divisor_list(fs).len() ==> divides(
                #[trigger] divisor_list(fs)[i],
                pairs_product(fs),
            ),
    decreases fs.len(),
{
    let dl = divisor_list(fs);
    if fs.len() == 0 {
        assert(dl =~= seq![1]);
        lemma_mod_self_0(1);
        assert(divides(1, 1));
    } else {
        let fs0 = fs.drop_last();
        assert(valid_factor_seq(fs0)) by {
            assert(forall|q: int| 0 <= q < fs0.len() ==> fs0[q] == fs[q]);
        }
        lemma_divisor_list_elements(fs0);
        let ds = divisor_list(fs0);
        let p = fs.last().0;
        let m = fs.last().1;
        let k = (m + 1) as nat;
        lemma_expand_upto_shape(ds, p, k);
        lemma_pairs_product_snoc(fs);
        assert(divisor_count(fs) == divisor_count(fs0) * (m + 1));
        assert((m + 1) * ds.len() == ds.len() * (m + 1)) by (nonlinear_arith);
        assert(ds.len() >= 1) by {
            crate::factorization::lemma_divisor_count_bounds(fs0);
        }
        assert forall|i: int| 0 <= i < dl.len() implies 1 <= #[trigger] dl[i] && divides(
            dl[i],
            pairs_product(fs),
        ) by {
            lemma_expand_upto_form(ds, p, k, i);
            let t = i % (ds.len() as int);
            let e = i / (ds.len() as int);
            let d0 = ds[t];
            let pe = pow(p, e as nat);
            assert(dl[i] == d0 * pe);
            lemma_pow_positive(p, e as nat);
            assert(1 <= d0 * pe) by (nonlinear_arith)
                requires
                    d0 >= 1,
                    pe >= 1,
            ;
            // p^e divides p^m because e <= m.
            lemma_pow_adds(p, e as nat, (m - e) as nat);
            lemma_pow_positive(p, (m - e) as nat);
            lemma_divides_witness(pe, pow(p, (m - e) as nat));
            lemma_divides_mul(d0, pairs_product(fs0), pe, pow(p, m as nat));
        }
    }
}

/// Two slots with different powers of a prime that divides neither base
/// element hold different values.
proof fn lemma_blocks_differ(ds: Seq<int>, p: int, t1: int, e1: nat, t2: int, e2: nat)
    requires
        is_prime(p),
        0 <= t1 < ds.len(),
        0 <= t2 < ds.len(),
        e1 < e2,
        !divides(p, ds[t1]),
        ds[t1] >= 1,
        ds[t2] >= 1,
    ensures
        ds[t1] * pow(p, e1) != ds[t2] * pow(p, e2),
{
    if ds[t1] * pow(p, e1) == ds[t2] * pow(p, e2) {
        let pw1 = pow(p, e1);
        let pwd = pow(p, (e2 - e1) as nat);
        lemma_pow_positive(p, e1);
        lemma_pow_positive(p, (e2 - e1) as nat);
        lemma_pow_adds(p, e1, (e2 - e1) as nat);
        assert(pow(p, e2) == pw1 * pwd);
        assert(pw1 * ds[t1] == pw1 * (ds[t2] * pwd)) by (nonlinear_arith)
            requires
                ds[t1] * pw1 == ds[t2] * (pw1 * pwd),
        ;
        lemma_mul_equality_converse(pw1, ds[t1], ds[t2] * pwd);
        assert(ds[t1] == ds[t2] * pwd);
        // One factor of p splits off the power difference.
        reveal(pow);
        lemma_pow_positive(p, (e2 - e1 - 1) as nat);
        assert(pwd == p * pow(p, (e2 - e1 - 1) as nat));
        assert(ds[t1] == p * (ds[t2] * pow(p, (e2 - e1 - 1) as nat))) by (nonlinear_arith)
            requires
                ds[t1] == ds[t2] * pwd,
                pwd == p * pow(p, (e2 - e1 - 1) as nat),
        ;
        lemma_divides_witness(p, ds[t2] * pow(p, (e2 - e1 - 1) as nat));
        assert(false);
    }
}

/// Over a well-formed factorization no divisor is produced twice.
pub proof fn lemma_divisor_list_distinct(fs: Seq<(int, int)>)
    requires
        valid_factor_seq(fs),
    ensures
        forall|i: int, j: int|
            0 <= i < j < divisor_list(fs).len() ==> #[trigger] divisor_list(fs)[i]
                != #[trigger] divisor_list(fs)[j],
    decreases fs.len(),
{
    let dl = divisor_list(fs);
    if fs.len() == 0 {
        assert(dl =~= seq![1]);
    } else {
        let fs0 = fs.drop_last();
        assert(valid_factor_seq(fs0)) by {
            assert(forall|q: int| 0 <= q < fs0.len() ==> fs0[q] == fs[q]);
        }
        lemma_divisor_list_distinct(fs0);
        lemma_divisor_list_elements(fs0);
        lemma_divisor_count_bounds(fs0);
        let ds = divisor_list(fs0);
        let p = fs.last().0;
        let m = fs.last().1;
        let k = (m + 1) as nat;
        let li = ds.len() as int;
        assert(is_prime(p));
        assert(forall|q: int| 0 <= q < fs0.len() ==> (#[trigger] fs0[q]).0 != p) by {
            assert(forall|q: int| 0 <= q < fs0.len() ==> fs0[q] == fs[q]);
            assert(forall|q: int| 0 <= q < fs.len() - 1 ==> (#[trigger] fs[q]).0 < fs.last().0);
        }
        lemma_prime_not_dividing_product(fs0, p);
        assert forall|t: int| 0 <= t < li implies !divides(p, ds[t]) by {
            if divides(p, ds[t]) {
                lemma_divides_transitive(p, ds[t], pairs_product(fs0));
            }
        }
        assert forall|i: int, j: int|
            0 <= i < j < dl.len() implies #[trigger] dl[i] != #[trigger] dl[j] by {
            lemma_expand_upto_form(ds, p, k, i);
            lemma_expand_upto_form(ds, p, k, j);
            let e1 = i / li;
            let t1 = i % li;
            let e2 = j / li;
            let t2 = j % li;
            if dl[i] == dl[j] {
                if e1 == e2 {
                    let pw = pow(p, e1 as nat);
                    lemma_pow_positive(p, e1 as nat);
                    assert(pw * ds[t1] == pw * ds[t2]) by (nonlinear_arith)
                        requires
                            ds[t1] * pw == ds[t2] * pw,
                    ;
                    lemma_mul_equality_converse(pw, ds[t1], ds[t2]);
                    assert(t1 == t2);
                    lemma_fundamental_div_mod(i, li);
                    lemma_fundamental_div_mod(j, li);
                    assert(false);
                } else if e1 < e2 {
                    lemma_blocks_differ(ds, p, t1, e1 as nat, t2, e2 as nat);
                    assert(false);
                } else {
                    lemma_blocks_differ(ds, p, t2, e2 as nat, t1, e1 as nat);
                    assert(false);
                }
            }
        }
    }
}

/// Every positive divisor of the product of a well-formed factorization
/// appears in its divisor list.
pub proof fn lemma_divisor_list_complete(fs: Seq<(int, int)>, d: int)
    requires
        valid_factor_seq(fs),
        d >= 1,
        divides(d, pairs_product(fs)),
    ensures
        divisor_list(fs).contains(d),
    decreases fs.len(),
{
    let dl = divisor_list(fs);
    lemma_divisor_count_bounds(fs);
    if fs.len() == 0 {
        lemma_divides_le(d, 1);
        assert(dl =~= seq![1]);
        assert(dl[0] == 1);
        assert(dl.contains(1));
    } else {
        let fs0 = fs.drop_last();
        assert(valid_factor_seq(fs0)) by {
            assert(forall|q: int| 0 <= q < fs0.len() ==> fs0[q] == fs[q]);
        }
        let p = fs.last().0;
        let m = fs.last().1;
        assert(is_prime(p) && m >= 1);
        let hp = pairs_product(fs0);
        lemma_pairs_product_snoc(fs);
        lemma_divisor_count_bounds(fs0);
        assert(forall|q: int| 0 <= q < fs0.len() ==> (#[trigger] fs0[q]).0 != p) by {
            assert(forall|q: int| 0 <= q < fs0.len() ==> fs0[q] == fs[q]);
            assert(forall|q: int| 0 <= q < fs.len() - 1 ==> (#[trigger] fs[q]).0 < fs.last().0);
        }
        lemma_prime_not_dividing_product(fs0, p);
        lemma_multiplicity_decompose(p, d);
        let e = multiplicity(p, d) as int;
        let pe = pow(p, e as nat);
        let d0 = d / pe;
        lemma_pow_positive(p, e as nat);
        lemma_pow_positive(p, m as nat);
        lemma_divides_le(d, pairs_product(fs));
        lemma_divides_factor(d, pairs_product(fs));
        let kd = pairs_product(fs) / d;
        if e > m {
            // d would carry more factors of p than the product itself has.
            lemma_pow1(p);
            lemma_pow_adds(p, m as nat, 1);
            lemma_pow_adds(p, (m + 1) as nat, (e - m - 1) as nat);
            lemma_pow_positive(p, (e - m - 1) as nat);
            assert(pe == (pow(p, m as nat) * p) * pow(p, (e - m - 1) as nat));
            assert(pow(p, m as nat) * hp == pow(p, m as nat) * (p * ((pow(p, (e - m - 1) as nat)
                * d0) * kd))) by (nonlinear_arith)
                requires
                    pairs_product(fs) == hp * pow(p, m as nat),
                    pairs_product(fs) == d * kd,
                    d == pe * d0,
                    pe == (pow(p, m as nat) * p) * pow(p, (e - m - 1) as nat),
            ;
            lemma_mul_equality_converse(
                pow(p, m as nat),
                hp,
                p * ((pow(p, (e - m - 1) as nat) * d0) * kd),
            );
            lemma_divides_witness(p, (pow(p, (e - m - 1) as nat) * d0) * kd);
            assert(divides(p, hp));
            assert(false);
        }
        // Split off the p-part of d; what remains divides the earlier product.
        lemma_pow_adds(p, e as nat, (m - e) as nat);
        assert(pe * (d0 * kd) == pe * (hp * pow(p, (m - e) as nat))) by (nonlinear_arith)
            requires
                pairs_product(fs) == hp * (pow(p, e as nat) * pow(p, (m - e) as nat)),
                pairs_product(fs) == d * kd,
                d == pe * d0,
                pe == pow(p, e as nat),
        ;
        lemma_mul_equality_converse(pe, d0 * kd, hp * pow(p, (m - e) as nat));
        lemma_divides_witness(d0, kd);
        assert(divides(d0, hp * pow(p, (m - e) as nat)));
        lemma_coprime_cancel_prime_power(d0, hp, p, (m - e) as nat);
        lemma_divisor_list_complete(fs0, d0);
        let ds = divisor_list(fs0);
        let t = choose|t: int| 0 <= t < ds.len() && ds[t] == d0;
        lemma_expand_upto_shape(ds, p, (m + 1) as nat);
        let li = ds.len() as int;
        lemma_mul_nonnegative(e, li);
        assert(e * li + t < (m + 1) * li) by (nonlinear_arith)
            requires
                0 <= e <= m,
                0 <= t < li,
        ;
        assert(dl[e * li + t] == ds[t] * pow(p, e as nat));
        assert(d == ds[t] * pow(p, e as nat)) by (nonlinear_arith)
            requires
                d == pe * d0,
                pe == pow(p, e as nat),
                ds[t] == d0,
        ;
        assert(dl.contains(d)) by {
            assert(0 <= e * li + t < dl.len());
            assert(dl[e * li + t] == d);
        }
    }
}

/// The divisor list of `n` holds exactly `divisor_count` entries, no two
/// equal, each of them a positive divisor of `n` and no larger than `n`,
/// and every positive divisor of `n` is among them.
pub proof fn lemma_factors_distinct_divisors(n: int)
    requires
        n >= 1,
    ensures
        divisor_list(factorization(n)).len() == divisor_count(factorization(n)),
        forall|i: int|
            0 <= i < divisor_list(factorization(n)).len()
                ==> 1 <= #[trigger] divisor_list(factorization(n))[i] <= n,
        forall|i: int|
            0 <= i < divisor_list(factorization(n)).len() ==> divides(
                #[trigger] divisor_list(factorization(n))[i],
                n,
            ),
        forall|i: int, j: int|
            0 <= i < j < divisor_list(factorization(n)).len()
                ==> #[trigger] divisor_list(factorization(n))[i] != #[trigger] divisor_list(
                factorization(n),
            )[j],
        forall|d: int|
            1 <= d && divides(d, n) ==> #[trigger] divisor_list(factorization(n)).contains(d),
{
    lemma_factorization_props(n);
    lemma_divisor_list_elements(factorization(n));
    lemma_divisor_list_distinct(factorization(n));
    let dl = divisor_list(factorization(n));
    assert forall|i: int| 0 <= i < dl.len() implies 1 <= #[trigger] dl[i] <= n by {
        lemma_divides_le(dl[i], n);
    }
    assert forall|d: int| 1 <= d && divides(d, n) implies #[trigger] dl.contains(d) by {
        lemma_divisor_list_complete(factorization(n), d);
    }
}

} // verus!
