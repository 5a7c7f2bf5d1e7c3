use milans_rust_core::generator::PrimeGenerator;

const PRIMES_TO_127: [u64; 31] = [
    2, 3, 5, 7, 11, 13, 17, 19, 23, 29, 31, 37, 41, 43, 47, 53, 59, 61, 67, 71, 73, 79, 83, 89,
    97, 101, 103, 107, 109, 113, 127,
];

fn drain(generator: &mut PrimeGenerator) -> Vec<u64> {
    let mut found = Vec::new();
    while let Some(p) = generator.next() {
        found.push(p);
    }
    found
}

#[test]
fn next_lists_the_primes_of_the_range() {
    let mut generator = PrimeGenerator::new(128);
    assert_eq!(drain(&mut generator), PRIMES_TO_127.to_vec());
    let mut generator = PrimeGenerator::new(127);
    assert_eq!(drain(&mut generator), PRIMES_TO_127[..30].to_vec());
    let mut generator = PrimeGenerator::from_range(10, 40);
    assert_eq!(drain(&mut generator), vec![11, 13, 17, 19, 23, 29, 31, 37]);
    let mut generator = PrimeGenerator::from_range(3, 6);
    assert_eq!(drain(&mut generator), vec![3, 5]);
}

#[test]
fn exhausted_generator_stays_exhausted() {
    let mut generator = PrimeGenerator::new(20);
    assert_eq!(drain(&mut generator).len(), 8);
    assert_eq!(generator.position(), 20);
    for _ in 0..5 {
        assert_eq!(generator.next(), None);
        assert_eq!(generator.position(), 20);
    }
    assert_eq!(generator.next_n_primes(3), None);
    assert_eq!(generator.next_n_numbers(10), None);
    let mut empty = PrimeGenerator::from_range(50, 40);
    assert_eq!(empty.next(), None);
    assert_eq!(empty.position(), 50);
}

#[test]
fn next_n_primes_twice_equals_once_doubled() {
    for k in 1..12usize {
        let mut twice = PrimeGenerator::from_range(0, 200);
        let mut first = twice.next_n_primes(k).unwrap_or_default();
        let second = twice.next_n_primes(k).unwrap_or_default();
        assert!(first.iter().all(|a| second.iter().all(|b| a < b)));
        first.extend(second);
        let mut once = PrimeGenerator::from_range(0, 200);
        assert_eq!(first, once.next_n_primes(2 * k).unwrap_or_default());
        assert_eq!(twice.position(), once.position());
    }
}

#[test]
fn next_n_primes_stops_at_the_end() {
    let mut generator = PrimeGenerator::new(30);
    assert_eq!(generator.next_n_primes(4), Some(vec![2, 3, 5, 7]));
    assert_eq!(generator.next_n_primes(100), Some(vec![11, 13, 17, 19, 23, 29]));
    assert_eq!(generator.next_n_primes(1), None);
    let mut large = PrimeGenerator::from_range(1_000_000_000, 1_000_000_100);
    assert_eq!(large.next_n_primes(3), Some(vec![1_000_000_007, 1_000_000_009, 1_000_000_021]));
}

#[test]
fn next_n_numbers_moves_by_positions() {
    let mut generator = PrimeGenerator::new(100);
    assert_eq!(generator.next_n_numbers(10), Some(vec![2, 3, 5, 7]));
    assert_eq!(generator.position(), 10);
    assert_eq!(generator.next_n_numbers(10), Some(vec![11, 13, 17, 19]));
    assert_eq!(generator.next_n_numbers(4), Some(vec![23]));
    assert_eq!(generator.position(), 24);
    assert_eq!(generator.next_n_numbers(1000), Some(vec![29, 31, 37, 41, 43, 47, 53, 59, 61, 67, 71, 73, 79, 83, 89, 97]));
    assert_eq!(generator.position(), 100);
    assert_eq!(generator.next_n_numbers(1), None);
}

#[test]
fn iteration_cap_lets_pseudoprimes_through() {
    let mut capped = PrimeGenerator::from_range_with_iterations(2040, 2050, 1);
    assert_eq!(drain(&mut capped), vec![2047]);
    let mut full = PrimeGenerator::from_range(2040, 2050);
    assert_eq!(drain(&mut full), Vec::<u64>::new());
    let mut none = PrimeGenerator::with_iterations(50, 0);
    assert_eq!(drain(&mut none), vec![2, 3, 5, 7, 11, 13, 17, 19, 23, 29, 31, 37, 41, 43, 47, 49]);
    let mut switched = PrimeGenerator::with_iterations(50, 0);
    switched.set_iteration_cap(None);
    assert_eq!(switched.iterations(), None);
    assert_eq!(drain(&mut switched).len(), 15);
}

#[test]
fn generator_near_the_top_of_the_range() {
    let mut generator = PrimeGenerator::from_range(u64::MAX - 100, u64::MAX);
    assert_eq!(drain(&mut generator), vec![18446744073709551521, 18446744073709551533, 18446744073709551557]);
    assert_eq!(generator.position(), u64::MAX);
}
