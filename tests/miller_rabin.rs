use milans_rust_core::miller_rabin::{is_probably_prime, is_probably_prime_limited, MillerRabinTest};

#[test]
fn miller_rabin_test() {
    assert_eq!(
        (-128..=127i8)
            .filter(|x| MillerRabinTest::miller_rabin_test(*x))
            .collect::<Vec<_>>(),
        vec![
            2, 3, 5, 7, 11, 13, 17, 19, 23, 29, 31, 37, 41, 43, 47, 53, 59, 61, 67, 71, 73, 79,
            83, 89, 97, 101, 103, 107, 109, 113, 127
        ]
    );
    assert_eq!(
        (-128..=127i8)
            .filter(|x| MillerRabinTest::miller_rabin_test_iter(*x, 0))
            .collect::<Vec<_>>(),
        vec![
            2, 3, 5, 7, 11, 13, 17, 19, 23, 25, 29, 31, 35, 37, 41, 43, 47, 49, 53, 55, 59, 61,
            65, 67, 71, 73, 77, 79, 83, 85, 89, 91, 95, 97, 101, 103, 107, 109, 113, 115, 119,
            121, 125, 127
        ]
    );
    assert_eq!(
        (-128..=127i8)
            .filter(|x| MillerRabinTest::miller_rabin_test_iter(*x, 1))
            .collect::<Vec<_>>(),
        vec![
            2, 3, 5, 7, 11, 13, 17, 19, 23, 29, 31, 37, 41, 43, 47, 53, 59, 61, 67, 71, 73, 79,
            83, 89, 97, 101, 103, 107, 109, 113, 127
        ]
    );
    assert_eq!(
        (0..=255u8)
            .filter(|x| MillerRabinTest::miller_rabin_test(*x))
            .collect::<Vec<_>>(),
        vec![
            2, 3, 5, 7, 11, 13, 17, 19, 23, 29, 31, 37, 41, 43, 47, 53, 59, 61, 67, 71, 73, 79,
            83, 89, 97, 101, 103, 107, 109, 113, 127, 131, 137, 139, 149, 151, 157, 163, 167,
            173, 179, 181, 191, 193, 197, 199, 211, 223, 227, 229, 233, 239, 241, 251
        ]
    );
    assert_eq!(
        (0..=255u8)
            .filter(|x| MillerRabinTest::miller_rabin_test_iter(*x, 0))
            .collect::<Vec<_>>(),
        vec![
            2, 3, 5, 7, 11, 13, 17, 19, 23, 25, 29, 31, 35, 37, 41, 43, 47, 49, 53, 55, 59, 61,
            65, 67, 71, 73, 77, 79, 83, 85, 89, 91, 95, 97, 101, 103, 107, 109, 113, 115, 119,
            121, 125, 127, 131, 133, 137, 139, 143, 145, 149, 151, 155, 157, 161, 163, 167,
            169, 173, 175, 179, 181, 185, 187, 191, 193, 197, 199, 203, 205, 209, 211, 215,
            217, 221, 223, 227, 229, 233, 235, 239, 241, 245, 247, 251, 253
        ]
    );
    assert_eq!(
        (0..=255u8)
            .filter(|x| MillerRabinTest::miller_rabin_test_iter(*x, 1))
            .collect::<Vec<_>>(),
        vec![
            2, 3, 5, 7, 11, 13, 17, 19, 23, 29, 31, 37, 41, 43, 47, 53, 59, 61, 67, 71, 73, 79,
            83, 89, 97, 101, 103, 107, 109, 113, 127, 131, 137, 139, 149, 151, 157, 163, 167,
            173, 179, 181, 191, 193, 197, 199, 211, 223, 227, 229, 233, 239, 241, 251
        ]
    );
    assert_eq!(
        (i16::MIN..=i16::MAX)
            .filter(|x| MillerRabinTest::miller_rabin_test(*x))
            .count(),
        3512
    );
    assert_eq!(
        (i16::MIN..=i16::MAX)
            .filter(|x| MillerRabinTest::miller_rabin_test_iter(*x, 0))
            .count(),
        10924
    );
    assert_eq!(
        (i16::MIN..=i16::MAX)
            .filter(|x| MillerRabinTest::miller_rabin_test_iter(*x, 1))
            .count(),
        3519
    );
    assert_eq!(
        (i16::MIN..=i16::MAX)
            .filter(|x| MillerRabinTest::miller_rabin_test_iter(*x, 2))
            .count(),
        3512
    );
    assert_eq!(
        (0..=u16::MAX)
            .filter(|x| MillerRabinTest::miller_rabin_test(*x))
            .count(),
        6542
    );
    assert_eq!(
        (0..=u16::MAX)
            .filter(|x| MillerRabinTest::miller_rabin_test_iter(*x, 0))
            .count(),
        21846
    );
    assert_eq!(
        (0..=u16::MAX)
            .filter(|x| MillerRabinTest::miller_rabin_test_iter(*x, 1))
            .count(),
        6553
    );
    assert_eq!(
        (0..=u16::MAX)
            .filter(|x| MillerRabinTest::miller_rabin_test_iter(*x, 2))
            .count(),
        6542
    );
}

const PRIMES_TO_127: [u32; 31] = [
    2, 3, 5, 7, 11, 13, 17, 19, 23, 29, 31, 37, 41, 43, 47, 53, 59, 61, 67, 71, 73, 79, 83, 89,
    97, 101, 103, 107, 109, 113, 127,
];

#[test]
fn primes_to_127_in_every_width() {
    let expected: Vec<u32> = PRIMES_TO_127.to_vec();
    assert_eq!((0..=127u8).filter(|x| x.miller_rabin_test()).map(u32::from).collect::<Vec<_>>(), expected);
    assert_eq!((0..=127i8).filter(|x| x.miller_rabin_test()).map(|x| x as u32).collect::<Vec<_>>(), expected);
    assert_eq!((0..=127u16).filter(|x| x.miller_rabin_test()).map(u32::from).collect::<Vec<_>>(), expected);
    assert_eq!((0..=127i16).filter(|x| x.miller_rabin_test()).map(|x| x as u32).collect::<Vec<_>>(), expected);
    assert_eq!((0..=127u32).filter(|x| x.miller_rabin_test()).collect::<Vec<_>>(), expected);
    assert_eq!((0..=127i32).filter(|x| x.miller_rabin_test()).map(|x| x as u32).collect::<Vec<_>>(), expected);
    assert_eq!((0..=127u64).filter(|x| x.miller_rabin_test()).map(|x| x as u32).collect::<Vec<_>>(), expected);
    assert_eq!((0..=127i64).filter(|x| x.miller_rabin_test()).map(|x| x as u32).collect::<Vec<_>>(), expected);
    assert_eq!((0..=127usize).filter(|x| x.miller_rabin_test()).map(|x| x as u32).collect::<Vec<_>>(), expected);
    assert_eq!((0..=127isize).filter(|x| x.miller_rabin_test()).map(|x| x as u32).collect::<Vec<_>>(), expected);
    assert_eq!((0..=127u128).filter(|x| x.miller_rabin_test()).map(|x| x as u32).collect::<Vec<_>>(), expected);
    assert_eq!((0..=127i128).filter(|x| x.miller_rabin_test()).map(|x| x as u32).collect::<Vec<_>>(), expected);
}

#[test]
fn strong_pseudoprime_2047_needs_a_second_base() {
    assert!(is_probably_prime_limited(2047, 0));
    assert!(is_probably_prime_limited(2047, 1));
    assert!(!is_probably_prime_limited(2047, 2));
    assert!(!is_probably_prime(2047));
    assert!(!2047u16.miller_rabin_test());
    assert!(2047u16.miller_rabin_test_iter(1));
}

#[test]
fn negative_and_small_values_are_not_prime() {
    assert!(!(-7i32).miller_rabin_test());
    assert!(!(-7i64).miller_rabin_test_iter(3));
    assert!(!0u64.miller_rabin_test());
    assert!(!1u64.miller_rabin_test());
    assert!(2u64.miller_rabin_test());
    assert!(3u64.miller_rabin_test_iter(0));
    assert!(!4u64.miller_rabin_test_iter(0));
}

#[test]
fn large_values() {
    // 2^61 - 1 and 2^64 - 59 are prime; 3215031751 = 151 * 751 * 28351 is a
    // strong pseudoprime to 2, 3, 5 and 7.
    assert!(((1u64 << 61) - 1).miller_rabin_test());
    assert!((u64::MAX - 58).miller_rabin_test());
    assert!(!3215031751u64.miller_rabin_test());
    assert!(!3215031751u32.miller_rabin_test());
    assert!(4294967291u32.miller_rabin_test());
    assert!(!((1u64 << 61) + 1).miller_rabin_test());
    // 2^89 - 1 is prime, 2^89 + 1 is divisible by 3, (2^61 - 1)^2 is a square.
    assert!(is_probably_prime_limited((1u128 << 89) - 1, 40));
    assert!(!is_probably_prime((1u128 << 89) + 1));
    let m61 = (1u128 << 61) - 1;
    assert!(!is_probably_prime(m61 * m61));
}

#[test]
fn fewer_bases_never_reject_more() {
    for n in 0..5000u64 {
        let mut previous = true;
        for k in 0..4usize {
            let now = n.miller_rabin_test_iter(k);
            assert!(previous || !now, "n = {} k = {}", n, k);
            previous = now;
        }
    }
}
