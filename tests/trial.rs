use milans_rust_core::miller_rabin::MillerRabinTest;
use milans_rust_core::sieve::prime_sieve;
use milans_rust_core::trial::{divisibility_test, prime_divisors, Factorization};

fn product(factors: &[u128]) -> u128 {
    factors.iter().product()
}

#[test]
fn divisibility_test_small_values() {
    let primes: Vec<u64> = (0..128u64).filter(|&n| divisibility_test(n)).collect();
    assert_eq!(
        primes,
        vec![
            2, 3, 5, 7, 11, 13, 17, 19, 23, 29, 31, 37, 41, 43, 47, 53, 59, 61, 67, 71, 73, 79,
            83, 89, 97, 101, 103, 107, 109, 113, 127
        ]
    );
}

#[test]
fn divisibility_test_agrees_with_miller_rabin() {
    for n in 0..20000u64 {
        assert_eq!(divisibility_test(n), n.miller_rabin_test(), "n = {}", n);
    }
    assert!(divisibility_test(4294967291));
    assert!(!divisibility_test(4294967291 * 3));
    assert!(!divisibility_test(2047));
    assert!(!divisibility_test(49));
    assert!(!divisibility_test(25));
    assert!(divisibility_test(1_000_000_007));
}

#[test]
fn prime_divisors_examples() {
    assert_eq!(prime_divisors(0), Vec::<u128>::new());
    assert_eq!(prime_divisors(1), Vec::<u128>::new());
    assert_eq!(prime_divisors(2), vec![2]);
    assert_eq!(prime_divisors(360), vec![2, 2, 2, 3, 3, 5]);
    assert_eq!(prime_divisors(2047), vec![23, 89]);
    assert_eq!(prime_divisors(49 * 121 * 169), vec![7, 7, 11, 11, 13, 13]);
    assert_eq!(prime_divisors(1_000_000_007), vec![1_000_000_007]);
    assert_eq!(prime_divisors(1 << 100), vec![2; 100]);
    assert_eq!(prime_divisors(4294967291 * 4294967279), vec![4294967279, 4294967291]);
}

#[test]
fn prime_divisors_round_trip() {
    for n in 1..5000u128 {
        let factors = prime_divisors(n);
        assert_eq!(product(&factors), n);
        assert!(factors.windows(2).all(|w| w[0] <= w[1]));
        assert!(factors.iter().all(|&f| divisibility_test(f as u64)));
    }
    let composite: u128 = 2 * 3 * 3 * 37 * 1009 * 65537;
    assert_eq!(product(&prime_divisors(composite)), composite);
}

#[test]
fn prime_sieve_examples() {
    assert_eq!(prime_sieve(0), vec![2]);
    assert_eq!(prime_sieve(2), vec![2]);
    assert_eq!(prime_sieve(3), vec![2]);
    assert_eq!(prime_sieve(4), vec![2, 3]);
    assert_eq!(prime_sieve(30), vec![2, 3, 5, 7, 11, 13, 17, 19, 23, 29]);
    assert_eq!(prime_sieve(31), vec![2, 3, 5, 7, 11, 13, 17, 19, 23, 29]);
    assert_eq!(prime_sieve(32).len(), 11);
    assert_eq!(prime_sieve(100_000).len(), 9592);
}

#[test]
fn prime_sieve_agrees_with_trial_division() {
    let sieved = prime_sieve(10_000);
    let tried: Vec<u64> = (0..10_000u64).filter(|&n| divisibility_test(n)).collect();
    assert_eq!(sieved, tried);
}

#[test]
fn factorization_by_rounds() {
    let number: u128 = 3 * 7 * 7 * 1009 * 1009 * 65537;
    let mut factorization = Factorization::new(number);
    let mut rounds = 0;
    while !factorization.is_done() {
        factorization.step();
        rounds += 1;
    }
    assert!(rounds > 0);
    assert_eq!(factorization.into_factors(), vec![3, 7, 7, 1009, 1009, 65537]);
    let zero = Factorization::new(0);
    assert!(zero.is_done());
    assert_eq!(zero.into_factors(), Vec::<u128>::new());
    let mut one = Factorization::new(1);
    while !one.is_done() {
        one.step();
    }
    assert_eq!(one.into_factors(), Vec::<u128>::new());
}
