use crate::modular::PowMod;
use vstd::arithmetic::power::pow;
use vstd::arithmetic::power2::pow2;
use vstd::prelude::*;

verus! {

/// The number of times 2 divides `x` (zero for `x == 0`).
pub open spec fn two_adic(x: nat) -> nat
    decreases x,
{
    if x > 0 && x % 2 == 0 {
        1 + two_adic(x / 2)
    } else {
        0
    }
}

/// `x` with every factor 2 divided out (zero for `x == 0`).
pub open spec fn odd_part(x: nat) -> nat
    decreases x,
{
    if x > 0 && x % 2 == 0 {
        odd_part(x / 2)
    } else {
        x
    }
}

/// The number of binary digits of `n`: `floor(log2(n)) + 1` for `n >= 1`.
pub open spec fn bit_length(n: nat) -> nat
    decreases n,
{
    if n == 0 {
        0
    } else {
        1 + bit_length(n / 2)
    }
}

/// `a^(d * 2^j) mod n`, where `n - 1 == 2^s * d` with `d` odd.
pub open spec fn square_chain(n: nat, a: int, j: nat) -> int {
    pow(a, odd_part((n - 1) as nat) * pow2(j)) % (n as int)
}

/// `n` is a strong probable prime to base `a`: with `n - 1 == 2^s * d` and
/// `d` odd, either `a^d == 1` or `a^(d * 2^j) == n - 1` for some `j < s`,
/// modulo `n`.
pub open spec fn strong_probable_prime(n: nat, a: int) -> bool {
    square_chain(n, a, 0) == 1 || exists|j: nat|
        j < two_adic((n - 1) as nat) && #[trigger] square_chain(n, a, j) == n - 1
}

/// How many witness bases the deterministic set for `n` holds.
pub open spec fn base_count(n: nat) -> nat {
    if n < 2047 {
        1
    } else if n <= u32::MAX {
        3
    } else if n <= u64::MAX {
        22
    } else {
        (2 * bit_length(n) * bit_length(n) - 1) as nat
    }
}

/// The `i`-th witness base for `n`: `2` below 2047; `2, 7, 61` up to
/// `u32::MAX`; `2` and the odd numbers `3..=43` up to `u64::MAX`; beyond,
/// `2` and every integer from `3` to `2 * (floor(log2(n)) + 1)^2`.
pub open spec fn witness_base(n: nat, i: nat) -> int {
    if i == 0 {
        2
    } else if n < 2047 {
        2
    } else if n <= u32::MAX {
        if i == 1 {
            7
        } else {
            61
        }
    } else if n <= u64::MAX {
        (2 * i + 1) as int
    } else {
        (i + 2) as int
    }
}

pub open spec fn min_nat(a: nat, b: nat) -> nat {
    if a < b {
        a
    } else {
        b
    }
}

/// The verdict of the Miller-Rabin test on `n` that tries at most `limit`
/// bases of the deterministic set: below 2 nothing is prime; a number that
/// is not `1` or `5` modulo 6 is prime exactly when it is 2 or 3; any other
/// number passes when it is a strong probable prime to each base tried.
pub open spec fn miller_rabin_passes(n: int, limit: nat) -> bool {
    if n < 2 {
        false
    } else if n % 6 != 1 && n % 6 != 5 {
        n < 4
    } else {
        forall|i: nat|
            i < min_nat(limit, base_count(n as nat)) ==> strong_probable_prime(
                n as nat,
                #[trigger] witness_base(n as nat, i),
            )
    }
}

/// The verdict of the Miller-Rabin test with every base of the set for `n`.
pub open spec fn probably_prime(n: int) -> bool {
    miller_rabin_passes(n, base_count(n as nat))
}

/// Trying more bases never turns a composite verdict into a prime one: a
/// number that passes with `more` bases passes with any fewer.
pub proof fn more_bases_never_pass_more(n: int, fewer: nat, more: nat)
    requires
        fewer <= more,
        miller_rabin_passes(n, more),
    ensures
        miller_rabin_passes(n, fewer),
{
}

/// The full base set passes only numbers that pass with any cap on the
/// number of bases.
pub proof fn full_test_passes_every_cap(n: int, cap: nat)
    requires
        probably_prime(n),
    ensures
        miller_rabin_passes(n, cap),
{
}

/// Each link of the chain is the square of the previous one.
proof fn lemma_square_chain_step(n: nat, a: int, j: nat)
    requires
        n > 0,
    ensures
        square_chain(n, a, j + 1) == (square_chain(n, a, j) * square_chain(n, a, j)) % (n as int),
{
    let d = odd_part((n - 1) as nat);
    let e = d * pow2(j);
    vstd::arithmetic::power2::lemma_pow2_unfold(j + 1);
    assert(d * pow2(j + 1) == e + e) by (nonlinear_arith)
        requires
            pow2(j + 1) == 2 * pow2(j),
            e == d * pow2(j),
    ;
    vstd::arithmetic::power::lemma_pow_adds(a, e, e);
    vstd::arithmetic::div_mod::lemma_mul_mod_noop(pow(a, e), pow(a, e), n as int);
}

/// Once a link of the chain is 0 or 1, every later link is too.
proof fn lemma_square_chain_stays_small(n: nat, a: int, j: nat, k: nat)
    requires
        n > 1,
        j <= k,
        square_chain(n, a, j) < 2,
    ensures
        square_chain(n, a, k) < 2,
    decreases k - j,
{
    if j < k {
        lemma_square_chain_stays_small(n, a, j, (k - 1) as nat);
        lemma_square_chain_step(n, a, (k - 1) as nat);
        let x = square_chain(n, a, (k - 1) as nat);
        assert(0 <= x < 2);
        assert(x * x == x) by (nonlinear_arith)
            requires
                0 <= x < 2,
        ;
        vstd::arithmetic::div_mod::lemma_small_mod(x as nat, n);
    }
}

/// `n - 1 == 2^s * d` with `d` odd, computed by dividing out factors 2.
fn decompose(n: u128) -> (r: (u128, u32))
    requires
        n >= 3,
        n % 2 == 1,
    ensures
        r.0 == odd_part((n - 1) as nat),
        r.1 == two_adic((n - 1) as nat),
        r.1 >= 1,
        r.0 >= 1,
{
    let mut d: u128 = n - 1;
    let mut s: u32 = 0;
    proof {
        vstd::arithmetic::power2::lemma2_to64();
    }
    while d % 2 == 0
        invariant
            d > 0,
            d <= n - 1,
            s <= 128,
            pow2(s as nat) * d <= n - 1,
            two_adic((n - 1) as nat) == s + two_adic(d as nat),
            odd_part((n - 1) as nat) == odd_part(d as nat),
        decreases d,
    {
        proof {
            vstd::arithmetic::power2::lemma_pow2_unfold((s + 1) as nat);
            assert(pow2((s + 1) as nat) * (d / 2) == pow2(s as nat) * d) by (nonlinear_arith)
                requires
                    pow2((s + 1) as nat) == 2 * pow2(s as nat),
                    d % 2 == 0,
            ;
            assert(pow2((s + 1) as nat) <= n) by (nonlinear_arith)
                requires
                    pow2((s + 1) as nat) * (d / 2) == pow2(s as nat) * d,
                    pow2(s as nat) * d <= n - 1,
                    d > 0,
                    d % 2 == 0,
            ;
            lemma_pow2_fits((s + 1) as nat, n);
        }
        d = d / 2;
        s = s + 1;
    }
    (d, s)
}

/// A power of two that divides into a `u128` has an exponent below 128.
proof fn lemma_pow2_fits(s: nat, n: u128)
    requires
        pow2(s) <= n,
    ensures
        s < 128,
{
    if s >= 128 {
        if s > 128 {
            vstd::arithmetic::power2::lemma_pow2_strictly_increases(128, s);
        }
        vstd::arithmetic::power2::lemma2_to64();
        vstd::arithmetic::power2::lemma2_to64_rest();
        vstd::arithmetic::power2::lemma_pow2_adds(64, 64);
        assert(pow2(64) * pow2(64) > u128::MAX) by (nonlinear_arith)
            requires
                pow2(64) == 0x10000000000000000,
        ;
    }
}

/// Whether base `a` exposes `n` as composite: the negation of
/// `strong_probable_prime`.
fn is_witness(n: u128, a: u128, d: u128, s: u32) -> (r: bool)
    requires
        n >= 5,
        n % 2 == 1,
        a >= 2,
        d >= 1,
        d == odd_part((n - 1) as nat),
        s == two_adic((n - 1) as nat),
        s >= 1,
    ensures
        r == !strong_probable_prime(n as nat, a as int),
{
    let ghost nn = n as nat;
    let ghost ai = a as int;
    let mut x = a.pow_mod(d, n);
    proof {
        vstd::arithmetic::power::lemma_pow_positive(ai, d as nat);
        vstd::arithmetic::power2::lemma2_to64();
        assert(d * pow2(0) == d);
        assert(x == square_chain(nn, ai, 0));
    }
    if x == 0 {
        proof {
            assert forall|j: nat| j < s implies #[trigger] square_chain(nn, ai, j) != n - 1 by {
                lemma_square_chain_stays_small(nn, ai, 0, j);
            }
        }
        return true;
    }
    if x == 1 || x == n - 1 {
        proof {
            if x != 1 {
                assert(square_chain(nn, ai, 0) == n - 1);
            }
        }
        return false;
    }
    let mut j: u32 = 1;
    while j < s
        invariant
            1 <= j <= s,
            nn == n as nat,
            ai == a as int,
            n >= 5,
            d == odd_part((n - 1) as nat),
            s == two_adic((n - 1) as nat),
            x == square_chain(nn, ai, (j - 1) as nat),
            square_chain(nn, ai, 0) != 1,
            forall|k: nat| k < j ==> #[trigger] square_chain(nn, ai, k) != n - 1,
        decreases s - j,
    {
        let ghost prev = x;
        x = x.mul_mod(x, n);
        proof {
            assert(prev * prev >= 0) by (nonlinear_arith);
            lemma_square_chain_step(nn, ai, (j - 1) as nat);
            assert(x == square_chain(nn, ai, j as nat));
        }
        if x < 2 {
            proof {
                assert forall|k: nat| k < s implies #[trigger] square_chain(nn, ai, k) != n - 1 by {
                    if k >= j {
                        lemma_square_chain_stays_small(nn, ai, j as nat, k);
                    }
                }
            }
            return true;
        }
        if x == n - 1 {
            proof {
                assert(square_chain(nn, ai, j as nat) == n - 1);
            }
            return false;
        }
        j = j + 1;
    }
    true
}

/// The number of binary digits of `n`.
fn bit_length_of(n: u128) -> (b: u32)
    ensures
        b == bit_length(n as nat),
        b <= 128,
{
    let mut v: u128 = n;
    let mut b: u32 = 0;
    proof {
        vstd::arithmetic::power2::lemma2_to64();
    }
    while v > 0
        invariant
            bit_length(n as nat) == b + bit_length(v as nat),
            v > 0 ==> pow2(b as nat) * v <= n,
            b <= 128,
        decreases v,
    {
        proof {
            vstd::arithmetic::power2::lemma_pow2_unfold((b + 1) as nat);
            assert(pow2(b as nat) <= n) by (nonlinear_arith)
                requires
                    pow2(b as nat) * v <= n,
                    v > 0,
            ;
            lemma_pow2_fits(b as nat, n);
            assert(pow2((b + 1) as nat) * (v / 2) <= pow2(b as nat) * v) by (nonlinear_arith)
                requires
                    pow2((b + 1) as nat) == 2 * pow2(b as nat),
            ;
        }
        v = v / 2;
        b = b + 1;
    }
    b
}

/// The size of the witness base set for `n`.
fn base_count_of(n: u128) -> (c: usize)
    ensures
        c == base_count(n as nat),
        1 <= c <= 32767,
{
    if n < 2047 {
        1
    } else if n <= 4294967295 {
        3
    } else if n <= 18446744073709551615 {
        22
    } else {
        let bits = bit_length_of(n) as usize;
        proof {
            lemma_bit_length_positive(n as nat);
            assert(1 <= bits * bits <= 16384) by (nonlinear_arith)
                requires
                    1 <= bits <= 128,
            ;
        }
        let square = bits * bits;
        proof {
            assert(2 * bits * bits == 2 * square) by (nonlinear_arith)
                requires
                    square == bits * bits,
            ;
        }
        2 * square - 1
    }
}

/// A positive number has at least one binary digit.
proof fn lemma_bit_length_positive(n: nat)
    requires
        n >= 1,
    ensures
        bit_length(n) >= 1,
{
}

/// The `i`-th witness base for `n`.
fn witness_base_of(n: u128, i: usize) -> (a: u128)
    requires
        i < base_count(n as nat),
        base_count(n as nat) <= 32767,
    ensures
        a == witness_base(n as nat, i as nat),
        a >= 2,
{
    if i == 0 {
        2
    } else if n < 2047 {
        2
    } else if n <= 4294967295 {
        if i == 1 {
            7
        } else {
            61
        }
    } else if n <= 18446744073709551615 {
        2 * i as u128 + 1
    } else {
        i as u128 + 2
    }
}

/// The Miller-Rabin test on `n` with at most `max_bases` bases of the
/// deterministic set; zero bases leaves only the test modulo 6.
pub fn is_probably_prime_limited(n: u128, max_bases: usize) -> (r: bool)
    ensures
        r == miller_rabin_passes(n as int, max_bases as nat),
{
    if n < 2 {
        return false;
    }
    if n % 6 != 1 && n % 6 != 5 {
        return n < 4;
    }
    assert(n % 2 == 1 && n >= 5);
    let count = base_count_of(n);
    let tries = if max_bases < count {
        max_bases
    } else {
        count
    };
    let (d, s) = decompose(n);
    let mut i: usize = 0;
    while i < tries
        invariant
            tries == min_nat(max_bases as nat, base_count(n as nat)),
            count == base_count(n as nat),
            1 <= count <= 32767,
            n % 6 == 1 || n % 6 == 5,
            n % 2 == 1,
            n >= 5,
            d == odd_part((n - 1) as nat),
            s == two_adic((n - 1) as nat),
            d >= 1,
            s >= 1,
            i <= tries,
            forall|k: nat|
                k < i ==> strong_probable_prime(n as nat, #[trigger] witness_base(n as nat, k)),
        decreases tries - i,
    {
        let a = witness_base_of(n, i);
        if is_witness(n, a, d, s) {
            proof {
                let ni = n as int;
                assert((ni as nat) == (n as nat));
                assert(!strong_probable_prime(ni as nat, witness_base(ni as nat, i as nat)));
                assert(i < min_nat(max_bases as nat, base_count(ni as nat)));
            }
            return false;
        }
        i = i + 1;
    }
    true
}

/// The Miller-Rabin test on `n` with every base of the deterministic set:
/// certain up to `u64::MAX`, probabilistic beyond.
pub fn is_probably_prime(n: u128) -> (r: bool)
    ensures
        r == probably_prime(n as int),
{
    let count = base_count_of(n);
    is_probably_prime_limited(n, count)
}

/// Miller-Rabin primality testing of a value of an integer type.
pub trait MillerRabinTest: PowMod {
    /// The test with every base of the deterministic set for the value.
    fn miller_rabin_test(self) -> (r: bool)
        ensures
            r == probably_prime(self.value()),
    ;

    /// The test with at most `iterations` bases of the set; with none, only
    /// the test modulo 6 is made.
    fn miller_rabin_test_iter(self, iterations: usize) -> (r: bool)
        ensures
            r == miller_rabin_passes(self.value(), iterations as nat),
    ;
}

impl MillerRabinTest for u8 {
    fn miller_rabin_test(self) -> (r: bool) {
        is_probably_prime(self as u128)
    }

    fn miller_rabin_test_iter(self, iterations: usize) -> (r: bool) {
        is_probably_prime_limited(self as u128, iterations)
    }
}

impl MillerRabinTest for u16 {
    fn miller_rabin_test(self) -> (r: bool) {
        is_probably_prime(self as u128)
    }

    fn miller_rabin_test_iter(self, iterations: usize) -> (r: bool) {
        is_probably_prime_limited(self as u128, iterations)
    }
}

impl MillerRabinTest for u32 {
    fn miller_rabin_test(self) -> (r: bool) {
        is_probably_prime(self as u128)
    }

    fn miller_rabin_test_iter(self, iterations: usize) -> (r: bool) {
        is_probably_prime_limited(self as u128, iterations)
    }
}

impl MillerRabinTest for u64 {
    fn miller_rabin_test(self) -> (r: bool) {
        is_probably_prime(self as u128)
    }

    fn miller_rabin_test_iter(self, iterations: usize) -> (r: bool) {
        is_probably_prime_limited(self as u128, iterations)
    }
}

impl MillerRabinTest for usize {
    fn miller_rabin_test(self) -> (r: bool) {
        is_probably_prime(self as u128)
    }

    fn miller_rabin_test_iter(self, iterations: usize) -> (r: bool) {
        is_probably_prime_limited(self as u128, iterations)
    }
}

impl MillerRabinTest for u128 {
    fn miller_rabin_test(self) -> (r: bool) {
        is_probably_prime(self as u128)
    }

    fn miller_rabin_test_iter(self, iterations: usize) -> (r: bool) {
        is_probably_prime_limited(self as u128, iterations)
    }
}

impl MillerRabinTest for i8 {
    fn miller_rabin_test(self) -> (r: bool) {
        if self < 2 {
            false
        } else {
            is_probably_prime(self as u128)
        }
    }

    fn miller_rabin_test_iter(self, iterations: usize) -> (r: bool) {
        if self < 2 {
            false
        } else {
            is_probably_prime_limited(self as u128, iterations)
        }
    }
}

impl MillerRabinTest for i16 {
    fn miller_rabin_test(self) -> (r: bool) {
        if self < 2 {
            false
        } else {
            is_probably_prime(self as u128)
        }
    }

    fn miller_rabin_test_iter(self, iterations: usize) -> (r: bool) {
        if self < 2 {
            false
        } else {
            is_probably_prime_limited(self as u128, iterations)
        }
    }
}

impl MillerRabinTest for i32 {
    fn miller_rabin_test(self) -> (r: bool) {
        if self < 2 {
            false
        } else {
            is_probably_prime(self as u128)
        }
    }

    fn miller_rabin_test_iter(self, iterations: usize) -> (r: bool) {
        if self < 2 {
            false
        } else {
            is_probably_prime_limited(self as u128, iterations)
        }
    }
}

impl MillerRabinTest for i64 {
    fn miller_rabin_test(self) -> (r: bool) {
        if self < 2 {
            false
        } else {
            is_probably_prime(self as u128)
        }
    }

    fn miller_rabin_test_iter(self, iterations: usize) -> (r: bool) {
        if self < 2 {
            false
        } else {
            is_probably_prime_limited(self as u128, iterations)
        }
    }
}

impl MillerRabinTest for isize {
    fn miller_rabin_test(self) -> (r: bool) {
        if self < 2 {
            false
        } else {
            is_probably_prime(self as u128)
        }
    }

    fn miller_rabin_test_iter(self, iterations: usize) -> (r: bool) {
        if self < 2 {
            false
        } else {
            is_probably_prime_limited(self as u128, iterations)
        }
    }
}

impl MillerRabinTest for i128 {
    fn miller_rabin_test(self) -> (r: bool) {
        if self < 2 {
            false
        } else {
            is_probably_prime(self as u128)
        }
    }

    fn miller_rabin_test_iter(self, iterations: usize) -> (r: bool) {
        if self < 2 {
            false
        } else {
            is_probably_prime_limited(self as u128, iterations)
        }
    }
}

} // verus!
