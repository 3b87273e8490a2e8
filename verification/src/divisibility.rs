//! Divisibility, primality and the smallest prime factor, as mathematical
//! specifications, together with the lemmas the sieve proofs rest on.

use vstd::prelude::*;
use vstd::arithmetic::div_mod::{
    lemma_fundamental_div_mod, lemma_mod_division_less_than_divisor, lemma_mod_multiples_basic,
    lemma_mod_self_0, lemma_mul_mod_noop_left, lemma_small_mod,
};
use vstd::arithmetic::mul::{
    lemma_mul_equality_converse, lemma_mul_is_associative, lemma_mul_is_commutative,
};
use vstd::arithmetic::power::{lemma_pow_positive, pow};

verus! {

/// `d` divides `n` evenly.
pub open spec fn divides(d: int, n: int) -> bool
    recommends
        d >= 1,
{
    n % d == 0
}

/// `p` is prime: at least 2, with no divisor strictly between 1 and `p`.
pub open spec fn is_prime(p: int) -> bool {
    p >= 2 && forall|d: int| 1 < d < p ==> !(#[trigger] divides(d, p))
}

/// The least `c' >= c` that divides `n`, or `n` itself if none smaller does.
pub open spec fn smallest_divisor_from(n: int, c: int) -> int
    recommends
        2 <= c <= n,
    decreases n - c,
{
    if c < 2 || c >= n {
        n
    } else if divides(c, n) {
        c
    } else {
        smallest_divisor_from(n, c + 1)
    }
}

/// The smallest prime factor of `n` (for `n >= 2`).
pub open spec fn smallest_prime_factor(n: int) -> int {
    smallest_divisor_from(n, 2)
}

/// If `d >= 1` divides `n >= 0`, then `n` is `d` times the quotient.
pub proof fn lemma_divides_factor(d: int, n: int)
    requires
        d >= 1,
        divides(d, n),
    ensures
        n == d * (n / d),
{
    lemma_fundamental_div_mod(n, d);
}

/// Any multiple `d * k` of `d >= 1` is divided by `d`.
pub proof fn lemma_divides_witness(d: int, k: int)
    requires
        d >= 1,
    ensures
        divides(d, d * k),
{
    lemma_mod_multiples_basic(k, d);
    lemma_mul_is_commutative(d, k);
}

/// Divisibility is transitive.
pub proof fn lemma_divides_transitive(a: int, b: int, c: int)
    requires
        a >= 1,
        b >= 1,
        divides(a, b),
        divides(b, c),
    ensures
        divides(a, c),
{
    lemma_divides_factor(a, b);
    lemma_divides_factor(b, c);
    assert(c == a * ((b / a) * (c / b))) by {
        lemma_mul_is_associative(a, b / a, c / b);
    }
    lemma_divides_witness(a, (b / a) * (c / b));
}

/// A positive divisor of a positive number is no larger than it, and the
/// cofactor is positive and bounded as well.
pub proof fn lemma_divides_le(d: int, n: int)
    requires
        d >= 1,
        n >= 1,
        divides(d, n),
    ensures
        d <= n,
        1 <= n / d <= n,
        n == d * (n / d),
{
    lemma_divides_factor(d, n);
    let k = n / d;
    assert(d <= n && 1 <= k <= n) by (nonlinear_arith)
        requires
            d >= 1,
            n >= 1,
            n == d * k,
    ;
}

/// Divisibility combines across products: if `d1 | n1` and `d2 | n2` then
/// `d1 * d2 | n1 * n2`.
pub proof fn lemma_divides_mul(d1: int, n1: int, d2: int, n2: int)
    requires
        d1 >= 1,
        d2 >= 1,
        divides(d1, n1),
        divides(d2, n2),
    ensures
        divides(d1 * d2, n1 * n2),
{
    lemma_divides_factor(d1, n1);
    lemma_divides_factor(d2, n2);
    let k1 = n1 / d1;
    let k2 = n2 / d2;
    assert(d1 * d2 >= 1) by (nonlinear_arith)
        requires
            d1 >= 1,
            d2 >= 1,
    ;
    assert(n1 * n2 == (d1 * d2) * (k1 * k2)) by (nonlinear_arith)
        requires
            n1 == d1 * k1,
            n2 == d2 * k2,
    ;
    lemma_divides_witness(d1 * d2, k1 * k2);
}

/// The characterising properties of `smallest_divisor_from`.
pub proof fn lemma_smallest_divisor_from(n: int, c: int)
    requires
        2 <= c <= n,
    ensures
        c <= smallest_divisor_from(n, c) <= n,
        divides(smallest_divisor_from(n, c), n),
        forall|d: int| c <= d < smallest_divisor_from(n, c) ==> !(#[trigger] divides(d, n)),
    decreases n - c,
{
    if c >= n {
        lemma_mod_self_0(n);
    } else if divides(c, n) {
    } else {
        lemma_smallest_divisor_from(n, c + 1);
        if c == n {
            lemma_mod_self_0(n);
        }
    }
}

/// The smallest prime factor of `n >= 2` is a prime divisor of `n`, no
/// smaller divisor above 1 exists, and it is at most `n`.
pub proof fn lemma_spf_basics(n: int)
    requires
        n >= 2,
    ensures
        2 <= smallest_prime_factor(n) <= n,
        divides(smallest_prime_factor(n), n),
        forall|d: int| 2 <= d < smallest_prime_factor(n) ==> !(#[trigger] divides(d, n)),
        is_prime(smallest_prime_factor(n)),
{
    lemma_smallest_divisor_from(n, 2);
    let p = smallest_prime_factor(n);
    assert forall|d: int| 1 < d < p implies !(#[trigger] divides(d, p)) by {
        if divides(d, p) {
            lemma_divides_transitive(d, p, n);
        }
    }
}

/// The table test for primality: `n` is its own smallest prime factor
/// exactly when `n` is prime.
pub proof fn lemma_spf_eq_iff_prime(n: int)
    requires
        n >= 2,
    ensures
        smallest_prime_factor(n) == n <==> is_prime(n),
{
    lemma_spf_basics(n);
    let p = smallest_prime_factor(n);
    if p != n {
        assert(1 < p < n && divides(p, n));
        assert(!is_prime(n));
    }
}

/// A divisor above 1 of a prime is the prime itself.
pub proof fn lemma_divisor_of_prime(d: int, p: int)
    requires
        d >= 2,
        is_prime(p),
        divides(d, p),
    ensures
        d == p,
{
    lemma_divides_le(d, p);
}

/// Euclid's lemma: a prime dividing a product divides one of the factors.
pub proof fn lemma_euclid(p: int, a: int, b: int)
    requires
        is_prime(p),
        a >= 0,
        b >= 0,
        divides(p, a * b),
    ensures
        divides(p, a) || divides(p, b),
    decreases a,
{
    if a == 0 {
        lemma_small_mod(0, p as nat);
        assert(divides(p, a));
    } else if a >= p {
        // Replace a by its remainder mod p: descent on the first factor.
        let a2 = a % p;
        lemma_mod_division_less_than_divisor(a, p);
        lemma_mul_mod_noop_left(a, b, p);
        assert(divides(p, a2 * b));
        lemma_euclid(p, a2, b);
        if divides(p, a2) {
            lemma_small_mod(a2 as nat, p as nat);
            assert(a2 == 0);
        }
    } else if a == 1 {
        assert(a * b == b) by (nonlinear_arith)
            requires
                a == 1,
        ;
    } else {
        // 1 < a < p: divide p by a; the remainder is a smaller witness.
        let r = p % a;
        let q = p / a;
        lemma_mod_division_less_than_divisor(p, a);
        lemma_fundamental_div_mod(p, a);
        if r == 0 {
            assert(divides(a, p));
            assert(false);
        }
        lemma_divides_factor(p, a * b);
        let k = (a * b) / p;
        assert(r * b == p * (b - q * k)) by (nonlinear_arith)
            requires
                p == a * q + r,
                a * b == p * k,
        ;
        lemma_divides_witness(p, b - q * k);
        assert(divides(p, r * b));
        lemma_euclid(p, r, b);
        if divides(p, r) {
            lemma_divides_le(p, r);
            assert(false);
        }
    }
}

/// Cancellation against a coprime factor: a number not divisible by the
/// prime `p` that divides `x * p` already divides `x`.
pub proof fn lemma_coprime_cancel_prime(c: int, x: int, p: int)
    requires
        c >= 1,
        x >= 0,
        is_prime(p),
        !divides(p, c),
        divides(c, x * p),
    ensures
        divides(c, x),
    decreases c,
{
    if c == 1 {
        lemma_mod_multiples_basic(x, 1);
        assert(x * 1 == x) by (nonlinear_arith);
        assert(divides(1, x));
    } else {
        let q = smallest_prime_factor(c);
        lemma_spf_basics(c);
        lemma_divides_transitive(q, c, x * p);
        assert(x * p >= 0) by (nonlinear_arith)
            requires
                x >= 0,
                p >= 2,
        ;
        lemma_euclid(q, x, p);
        if divides(q, p) {
            lemma_divisor_of_prime(q, p);
            assert(divides(p, c));
            assert(false);
        }
        // q divides both c and x: strip it from both sides.
        let c2 = c / q;
        let x2 = x / q;
        lemma_divides_factor(q, c);
        lemma_divides_factor(q, x);
        lemma_divides_factor(c, x * p);
        let k = (x * p) / c;
        assert(c2 >= 1) by (nonlinear_arith)
            requires
                c >= 2,
                q >= 2,
                c == q * c2,
        ;
        assert(x2 >= 0) by (nonlinear_arith)
            requires
                x >= 0,
                q >= 2,
                x == q * x2,
        ;
        assert(q * (x2 * p) == q * (c2 * k)) by (nonlinear_arith)
            requires
                x == q * x2,
                c == q * c2,
                x * p == c * k,
        ;
        lemma_mul_equality_converse(q, x2 * p, c2 * k);
        lemma_divides_witness(c2, k);
        assert(divides(c2, x2 * p));
        if divides(p, c2) {
            lemma_divides_witness(c2, q);
            lemma_mul_is_commutative(c2, q);
            assert(divides(c2, c));
            lemma_divides_transitive(p, c2, c);
            assert(false);
        }
        assert(c2 < c) by (nonlinear_arith)
            requires
                c == q * c2,
                q >= 2,
                c2 >= 1,
        ;
        lemma_coprime_cancel_prime(c2, x2, p);
        // Reassemble: c = q * c2 divides x = q * x2.
        lemma_divides_factor(c2, x2);
        let w = x2 / c2;
        assert(x == c * w) by (nonlinear_arith)
            requires
                x == q * x2,
                x2 == c2 * w,
                c == q * c2,
        ;
        lemma_divides_witness(c, w);
    }
}

/// The same cancellation against any power of the coprime prime.
pub proof fn lemma_coprime_cancel_prime_power(c: int, x: int, p: int, j: nat)
    requires
        c >= 1,
        x >= 0,
        is_prime(p),
        !divides(p, c),
        divides(c, x * pow(p, j)),
    ensures
        divides(c, x),
    decreases j,
{
    reveal(pow);
    if j == 0 {
        assert(x * pow(p, 0) == x) by (nonlinear_arith)
            requires
                pow(p, 0) == 1,
        ;
    } else {
        lemma_pow_positive(p, (j - 1) as nat);
        assert(pow(p, j) == p * pow(p, (j - 1) as nat));
        assert((x * pow(p, (j - 1) as nat)) * p == x * pow(p, j)) by (nonlinear_arith)
            requires
                pow(p, j) == p * pow(p, (j - 1) as nat),
        ;
        assert(x * pow(p, (j - 1) as nat) >= 0) by (nonlinear_arith)
            requires
                x >= 0,
                pow(p, (j - 1) as nat) >= 1,
        ;
        lemma_coprime_cancel_prime(c, x * pow(p, (j - 1) as nat), p);
        lemma_coprime_cancel_prime_power(c, x, p, (j - 1) as nat);
    }
}

/// A prime dividing a power of a prime is that prime.
pub proof fn lemma_prime_divides_prime_power(q: int, p: int, e: nat)
    requires
        is_prime(q),
        is_prime(p),
        divides(q, pow(p, e)),
    ensures
        q == p,
    decreases e,
{
    reveal(pow);
    if e == 0 {
        lemma_divides_le(q, 1);
        assert(false);
    } else {
        lemma_pow_positive(p, (e - 1) as nat);
        assert(pow(p, e) == p * pow(p, (e - 1) as nat));
        lemma_euclid(q, p, pow(p, (e - 1) as nat));
        if divides(q, p) {
            lemma_divisor_of_prime(q, p);
        } else {
            lemma_prime_divides_prime_power(q, p, (e - 1) as nat);
        }
    }
}

} // verus!
