use std::collections::HashSet;

use prime_factor_sieve::PrimeFactorSieve;

#[test]
fn test_primes() {
    let sieve = PrimeFactorSieve::new(100);
    assert_eq!(
        sieve.primes(),
        vec![
            2u32, 3, 5, 7, 11, 13, 17, 19, 23, 29, 31, 37, 41, 43, 47, 53, 59, 61, 67, 71, 73,
            79, 83, 89, 97
        ]
    );
}

#[test]
fn test_is_prime() {
    let sieve = PrimeFactorSieve::new(10);
    assert!(sieve.is_prime(2));
    assert!(sieve.is_prime(3));
    assert!(!sieve.is_prime(4));
    assert!(sieve.is_prime(5));
    assert!(!sieve.is_prime(6));
    assert!(sieve.is_prime(7));
    assert!(!sieve.is_prime(8));
    assert!(!sieve.is_prime(9));
    assert!(!sieve.is_prime(10));
}

#[test]
fn test_2() {
    let sieve = PrimeFactorSieve::new(2);
    assert_eq!(sieve.prime_factors(2), vec![(2u32, 1u32)]);
}

#[test]
fn test_10() {
    let sieve = PrimeFactorSieve::new(10);
    assert_eq!(sieve.prime_factors(2), vec![(2u32, 1u32)]);
    assert_eq!(sieve.prime_factors(3), vec![(3u32, 1u32)]);
    assert_eq!(sieve.prime_factors(4), vec![(2u32, 2u32)]);
    assert_eq!(sieve.prime_factors(5), vec![(5u32, 1u32)]);
    assert_eq!(sieve.prime_factors(6), vec![(2u32, 1u32), (3u32, 1u32)]);
    assert_eq!(sieve.prime_factors(7), vec![(7u32, 1u32)]);
    assert_eq!(sieve.prime_factors(8), vec![(2u32, 3u32)]);
    assert_eq!(sieve.prime_factors(9), vec![(3u32, 2u32)]);
    assert_eq!(sieve.prime_factors(10), vec![(2u32, 1u32), (5u32, 1u32)]);
}

fn sorted(mut v: Vec<u32>) -> Vec<u32> {
    v.sort();
    v
}

#[test]
fn test_factors() {
    let sieve = PrimeFactorSieve::new(30);

    assert_eq!(sorted(sieve.factors(10)), vec![1u32, 2, 5, 10]);
    assert_eq!(sorted(sieve.factors(13)), vec![1u32, 13]);
    assert_eq!(sorted(sieve.factors(24)), vec![1u32, 2, 3, 4, 6, 8, 12, 24]);
}

#[test]
fn test_large_factor() {
    let sieve = PrimeFactorSieve::new(100_000_000);

    assert_eq!(sorted(sieve.factors(131266)), vec![1u32, 2, 65633, 131266]);
    assert_eq!(
        sorted(sieve.factors(100_000_000)),
        sorted(vec![
            1u32, 5, 25, 125, 625, 3125, 15625, 78125, 390625, 2, 10, 50, 250, 1250, 6250, 31250,
            156250, 781250, 4, 20, 100, 500, 2500, 12500, 62500, 312500, 1562500, 8, 40, 200,
            1000, 5000, 25000, 125000, 625000, 3125000, 16, 80, 400, 2000, 10000, 50000, 250000,
            1250000, 6250000, 32, 160, 800, 4000, 20000, 100000, 500000, 2500000, 12500000, 64,
            320, 1600, 8000, 40000, 200000, 1000000, 5000000, 25000000, 128, 640, 3200, 16000,
            80000, 400000, 2000000, 10000000, 50000000, 256, 1280, 6400, 32000, 160000, 800000,
            4000000, 20000000, 100000000,
        ])
    );
}

#[test]
fn test_factors_count() {
    let sieve = PrimeFactorSieve::new(100);
    for n in 1..=100 {
        assert_eq!(sieve.factors_count(n), sieve.factors(n).len() as u32);
    }
}

#[test]
fn test_coprime() {
    let sieve = PrimeFactorSieve::new(100);
    for a in 1..=100 {
        let ap: HashSet<u32> = sieve.prime_factors(a).iter().map(|&(p, _)| p).collect();
        for b in 1..=100 {
            let coprime = !sieve.prime_factors(b).iter().any(|&(p, _)| ap.contains(&p));
            assert_eq!(sieve.coprime(a, b), coprime);
        }
    }
}
