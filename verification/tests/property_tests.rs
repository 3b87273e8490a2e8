use prime_factor_sieve::PrimeFactorSieve;

fn trial_division_is_prime(n: u32) -> bool {
    if n < 2 {
        return false;
    }
    let mut d = 2;
    while d < n {
        if n % d == 0 {
            return false;
        }
        d += 1;
    }
    true
}

fn naive_divisors(n: u32) -> Vec<u32> {
    let mut out = Vec::new();
    for d in 1..=n {
        if n % d == 0 {
            out.push(d);
        }
    }
    out
}

#[test]
fn primality_matches_trial_division() {
    let sieve = PrimeFactorSieve::new(200);
    for n in 2..=200 {
        assert_eq!(sieve.is_prime(n), trial_division_is_prime(n));
    }
}

#[test]
fn prime_factors_multiply_back_to_n() {
    let sieve = PrimeFactorSieve::new(500);
    for n in 1..=500u32 {
        let mut product: u64 = 1;
        for (p, m) in sieve.prime_factors(n) {
            for _ in 0..m {
                product *= p as u64;
            }
        }
        assert_eq!(product, n as u64);
    }
}

#[test]
fn prime_factors_are_increasing_primes_with_positive_multiplicity() {
    let sieve = PrimeFactorSieve::new(500);
    for n in 1..=500 {
        let pf = sieve.prime_factors(n);
        for &(p, m) in &pf {
            assert!(sieve.is_prime(p));
            assert!(m >= 1);
        }
        for w in pf.windows(2) {
            assert!(w[0].0 < w[1].0);
        }
    }
}

#[test]
fn factors_are_exactly_the_divisors() {
    let sieve = PrimeFactorSieve::new(120);
    for n in 1..=120 {
        let mut fs = sieve.factors(n);
        fs.sort();
        assert_eq!(fs, naive_divisors(n));
    }
}

#[test]
fn factors_count_matches_distinct_divisor_enumeration() {
    let sieve = PrimeFactorSieve::new(200);
    for n in 1..=200 {
        let fs = sieve.factors(n);
        assert_eq!(fs.len() as u32, sieve.factors_count(n));
        let mut dedup = fs.clone();
        dedup.sort();
        dedup.dedup();
        assert_eq!(dedup.len(), fs.len());
        for &d in &fs {
            assert!(d >= 1 && n % d == 0);
        }
    }
}

#[test]
fn coprime_examples() {
    let sieve = PrimeFactorSieve::new(100);
    assert!(sieve.coprime(12, 35));
    assert!(!sieve.coprime(12, 9));
    assert!(sieve.coprime(1, 1));
    assert!(sieve.coprime(1, 64));
    assert!(sieve.coprime(97, 96));
    assert!(!sieve.coprime(100, 10));
}

#[test]
fn smallest_bounds_behave() {
    let sieve = PrimeFactorSieve::new(1);
    assert_eq!(sieve.prime_factors(1), vec![]);
    assert_eq!(sieve.factors(1), vec![1u32]);
    assert_eq!(sieve.factors_count(1), 1);
    assert!(sieve.coprime(1, 1));
    assert_eq!(sieve.primes(), vec![]);

    let sieve2 = PrimeFactorSieve::new(2);
    assert!(sieve2.is_prime(2));
    assert_eq!(sieve2.primes(), vec![2u32]);
    assert_eq!(sieve2.factors_count(2), 2);
}

#[test]
fn factors_count_formula_examples() {
    let sieve = PrimeFactorSieve::new(100);
    // 60 = 2^2 * 3 * 5 has (2+1)(1+1)(1+1) = 12 divisors.
    assert_eq!(sieve.factors_count(60), 12);
    // 64 = 2^6 has 7 divisors.
    assert_eq!(sieve.factors_count(64), 7);
    // A prime has exactly 2.
    assert_eq!(sieve.factors_count(97), 2);
}
