use vstd::prelude::*;

verus! {

/// `n` is prime: at least 2, with no divisor strictly between 1 and itself.
pub open spec fn is_prime(n: int) -> bool {
    n >= 2 && forall|d: int| 2 <= d < n ==> #[trigger] (n % d) != 0
}

/// No integer from 2 up to (excluding) `c` divides `r`.
pub open spec fn no_divisor_below(r: int, c: int) -> bool {
    forall|d: int| 2 <= d < c ==> #[trigger] (r % d) != 0
}

/// The product of the numbers in `s`.
pub open spec fn product(s: Seq<u128>) -> int
    decreases s.len(),
{
    if s.len() == 0 {
        1
    } else {
        product(s.drop_last()) * s.last()
    }
}

/// The numbers in `s` never decrease.
pub open spec fn non_decreasing(s: Seq<u128>) -> bool {
    forall|i: int, j: int| 0 <= i <= j < s.len() ==> s[i] <= s[j]
}

/// `d` is a multiple of 2, 3 or 5.
pub open spec fn multiple_of_2_3_or_5(d: int) -> bool {
    d % 2 == 0 || d % 3 == 0 || d % 5 == 0
}

/// `k` is the offset of a wheel position within a round of 30 that starts
/// at a number congruent to 7: the residues prime to 30.
pub open spec fn wheel_offset(k: int) -> bool {
    k == 0 || k == 4 || k == 6 || k == 10 || k == 12 || k == 16 || k == 22 || k == 24
}

/// Relies on num_integer's `Roots::sqrt`, which for an unsigned integer
/// returns the `r` with `r * r <= n < (r + 1) * (r + 1)`.
#[verifier::external_body]
fn integer_sqrt(n: u128) -> (r: u128)
    ensures
        r * r <= n < (r + 1) * (r + 1),
{
    num::integer::Roots::sqrt(&n)
}

/// Divisibility is transitive.
pub(crate) proof fn lemma_divides_trans(r: int, d: int, k: int)
    requires
        d > 0,
        k > 0,
        r % d == 0,
        d % k == 0,
    ensures
        r % k == 0,
{
    vstd::arithmetic::div_mod::lemma_fundamental_div_mod(r, d);
    vstd::arithmetic::div_mod::lemma_fundamental_div_mod(d, k);
    let q = r / d;
    let p = d / k;
    assert(r == k * (p * q)) by (nonlinear_arith)
        requires
            r == d * q + 0,
            d == k * p + 0,
    ;
    vstd::arithmetic::div_mod::lemma_mod_multiples_basic(p * q, k);
    assert(k * (p * q) == (p * q) * k) by (nonlinear_arith);
}

/// The integers between wheel positions are multiples of 2, 3 or 5: for
/// `c` congruent to 7 modulo 30, every `c + k` with `k < 30` but `k` not
/// one of 0, 4, 6, 10, 12, 16, 22, 24.
proof fn lemma_wheel_gap_multiple(c: int, d: int)
    requires
        c >= 0,
        c % 30 == 7,
        c <= d < c + 30,
        d != c,
        d != c + 4,
        d != c + 6,
        d != c + 10,
        d != c + 12,
        d != c + 16,
        d != c + 22,
        d != c + 24,
    ensures
        d % 2 == 0 || d % 3 == 0 || d % 5 == 0,
{
    let q = c / 30;
    vstd::arithmetic::div_mod::lemma_fundamental_div_mod(c, 30);
    let k = d - c;
    assert(d == 2 * (15 * q) + (7 + k));
    assert(d == 3 * (10 * q) + (7 + k));
    assert(d == 5 * (6 * q) + (7 + k));
    vstd::arithmetic::div_mod::lemma_mod_multiples_vanish(15 * q, 7 + k, 2);
    vstd::arithmetic::div_mod::lemma_mod_multiples_vanish(10 * q, 7 + k, 3);
    vstd::arithmetic::div_mod::lemma_mod_multiples_vanish(6 * q, 7 + k, 5);
}

/// Moving the bound past integers that are multiples of 2, 3 or 5 keeps
/// `r` free of divisors, since 2, 3 and 5 do not divide it.
proof fn lemma_extend_past_multiples(r: int, from: int, to: int)
    requires
        from >= 6,
        no_divisor_below(r, from),
        forall|d: int| from <= d < to ==> #[trigger] multiple_of_2_3_or_5(d),
    ensures
        no_divisor_below(r, to),
{
    assert forall|d: int| 2 <= d < to implies #[trigger] (r % d) != 0 by {
        if d >= from && r % d == 0 {
            assert(multiple_of_2_3_or_5(d));
            if d % 2 == 0 {
                lemma_divides_trans(r, d, 2);
                assert(r % 2 != 0);
            } else if d % 3 == 0 {
                lemma_divides_trans(r, d, 3);
                assert(r % 3 != 0);
            } else {
                lemma_divides_trans(r, d, 5);
                assert(r % 5 != 0);
            }
        }
    }
}

/// From wheel offset `lo` to offset `hi` of the round that starts at `c`,
/// every integer in between is a multiple of 2, 3 or 5.
proof fn lemma_wheel_step(r: int, c: int, lo: int, hi: int)
    requires
        c >= 7,
        c % 30 == 7,
        0 <= lo < hi <= 30,
        no_divisor_below(r, c + lo + 1),
        forall|k: int| lo < k < hi ==> !#[trigger] wheel_offset(k),
    ensures
        no_divisor_below(r, c + hi),
{
    assert forall|d: int| c + lo + 1 <= d < c + hi implies #[trigger] multiple_of_2_3_or_5(d) by {
        assert(!wheel_offset(d - c));
        lemma_wheel_gap_multiple(c, d);
    }
    lemma_extend_past_multiples(r, c + lo + 1, c + hi);
}

/// A number with no divisor up to its square root is prime.
proof fn lemma_prime_without_small_divisor(r: int, c: int)
    requires
        r >= 2,
        c >= 2,
        c * c > r,
        no_divisor_below(r, c),
    ensures
        is_prime(r),
{
    assert forall|d: int| 2 <= d < r implies #[trigger] (r % d) != 0 by {
        if r % d == 0 && d >= c {
            vstd::arithmetic::div_mod::lemma_fundamental_div_mod(r, d);
            let q = r / d;
            assert(q >= 2 && q < c) by (nonlinear_arith)
                requires
                    r == d * q + 0,
                    2 <= d < r,
                    d >= c,
                    c * c > r,
                    c >= 2,
            ;
            vstd::arithmetic::div_mod::lemma_mod_multiples_basic(d, q);
            assert(d * q == r) by (nonlinear_arith)
                requires
                    r == d * q + 0,
            ;
            assert(r % q == 0);
        }
    }
}

/// A divisor that is found first, with nothing smaller dividing, is prime.
proof fn lemma_first_divisor_prime(r: int, t: int)
    requires
        t >= 2,
        r % t == 0,
        no_divisor_below(r, t),
    ensures
        is_prime(t),
{
    assert forall|d: int| 2 <= d < t implies #[trigger] (t % d) != 0 by {
        if t % d == 0 {
            lemma_divides_trans(r, t, d);
        }
    }
}

/// Dividing by a factor keeps a number free of small divisors.
proof fn lemma_quotient_keeps_no_divisor(r: int, t: int, c: int)
    requires
        t >= 1,
        r >= 1,
        r % t == 0,
        no_divisor_below(r, c),
    ensures
        no_divisor_below(r / t, c),
{
    vstd::arithmetic::div_mod::lemma_fundamental_div_mod(r, t);
    let q = r / t;
    assert(q >= 1 && r == t * q) by (nonlinear_arith)
        requires
            r == t * q + 0,
            r >= 1,
            t >= 1,
    ;
    vstd::arithmetic::div_mod::lemma_mod_multiples_basic(t, q);
    assert(r % q == 0) by {
        assert(t * q == q * t) by (nonlinear_arith);
    }
    assert forall|d: int| 2 <= d < c implies #[trigger] (q % d) != 0 by {
        if q % d == 0 {
            lemma_divides_trans(r, q, d);
        }
    }
}

/// The product of a sequence extended by one number.
proof fn lemma_product_push(s: Seq<u128>, x: u128)
    ensures
        product(s.push(x)) == product(s) * x,
{
    assert(s.push(x).drop_last() =~= s);
}

/// Divides every factor `t` out of `remaining` and records each one.
fn strip_factor(remaining: &mut u128, factors: &mut Vec<u128>, t: u128)
    requires
        t >= 2,
        *old(remaining) >= 1,
        no_divisor_below(*old(remaining) as int, t as int),
        non_decreasing(old(factors)@),
        forall|i: int| 0 <= i < old(factors)@.len() ==> #[trigger] old(factors)@[i] <= t,
        forall|i: int|
            0 <= i < old(factors)@.len() ==> is_prime(#[trigger] old(factors)@[i] as int),
    ensures
        *final(remaining) >= 1,
        product(final(factors)@) * *final(remaining) == product(old(factors)@) * *old(remaining),
        no_divisor_below(*final(remaining) as int, t + 1),
        non_decreasing(final(factors)@),
        forall|i: int| 0 <= i < final(factors)@.len() ==> #[trigger] final(factors)@[i] <= t,
        forall|i: int|
            0 <= i < final(factors)@.len() ==> is_prime(#[trigger] final(factors)@[i] as int),
{
    let ghost start = product(factors@) * *remaining;
    while *remaining % t == 0
        invariant
            t >= 2,
            *remaining >= 1,
            no_divisor_below(*remaining as int, t as int),
            product(factors@) * *remaining == start,
            non_decreasing(factors@),
            forall|i: int| 0 <= i < factors@.len() ==> #[trigger] factors@[i] <= t,
            forall|i: int| 0 <= i < factors@.len() ==> is_prime(#[trigger] factors@[i] as int),
        decreases *remaining,
    {
        let ghost before = *remaining;
        let ghost old_factors = factors@;
        proof {
            lemma_first_divisor_prime(before as int, t as int);
            lemma_quotient_keeps_no_divisor(before as int, t as int, t as int);
            vstd::arithmetic::div_mod::lemma_fundamental_div_mod(before as int, t as int);
            lemma_product_push(old_factors, t);
            assert(product(old_factors) * t * (before / t) == product(old_factors) * before)
                by (nonlinear_arith)
                requires
                    before == t * (before / t) + 0,
            ;
            assert(before / t >= 1 && before / t < before) by (nonlinear_arith)
                requires
                    before == t * (before / t) + 0,
                    before >= 1,
                    t >= 2,
            ;
        }
        *remaining = *remaining / t;
        factors.push(t);
    }
}

/// A factorization by trial division in progress: 2, 3 and 5 are divided
/// out first, then, one round of 30 at a time, the numbers prime to 30, up
/// to the square root of what is left. Between rounds a caller may stop.
pub struct Factorization {
    number: u128,
    remaining: u128,
    candidate: u128,
    root: u128,
    factors: Vec<u128>,
}

/// Past the last candidate that a `u128` can need.
pub const CANDIDATE_BOUND: u128 = 0x1_0000_0000_0000_0020;

/// What a finished factorization of `number` hands back: nothing for 0,
/// else prime factors in non-decreasing order whose product is `number`.
pub open spec fn is_prime_factorization(number: u128, factors: Seq<u128>) -> bool {
    &&& number == 0 ==> factors.len() == 0
    &&& number >= 1 ==> product(factors) == number
    &&& non_decreasing(factors)
    &&& forall|i: int| 0 <= i < factors.len() ==> is_prime(#[trigger] factors[i] as int)
}

impl Factorization {
    /// The number being factored.
    pub closed spec fn spec_number(&self) -> u128 {
        self.number
    }

    /// The search has passed the square root of what is left.
    pub closed spec fn spec_done(&self) -> bool {
        self.candidate > self.root
    }

    /// Shrinks with each round.
    pub closed spec fn spec_rounds_left(&self) -> nat {
        (CANDIDATE_BOUND - self.candidate) as nat
    }

    /// The state between rounds.
    pub closed spec fn wf(&self) -> bool {
        &&& 7 <= self.candidate <= CANDIDATE_BOUND
        &&& self.candidate % 30 == 7
        &&& self.remaining >= 1
        &&& self.root * self.root <= self.remaining < (self.root + 1) * (self.root + 1)
        &&& no_divisor_below(self.remaining as int, self.candidate as int)
        &&& self.number == 0 ==> self.factors@.len() == 0 && self.remaining == 1
        &&& self.number >= 1 ==> product(self.factors@) * self.remaining == self.number
        &&& non_decreasing(self.factors@)
        &&& forall|i: int|
            0 <= i < self.factors@.len() ==> #[trigger] self.factors@[i] < self.candidate
        &&& forall|i: int|
            0 <= i < self.factors@.len() ==> is_prime(#[trigger] self.factors@[i] as int)
    }

    /// Starts the factorization of `number`: divides out 2, 3 and 5.
    pub fn new(number: u128) -> (f: Self)
        ensures
            f.wf(),
            f.spec_number() == number,
    {
        let mut factors: Vec<u128> = Vec::new();
        let mut remaining: u128 = if number < 1 {
            1
        } else {
            number
        };
        proof {
            assert(product(factors@) == 1);
            vstd::arithmetic::power2::lemma2_to64();
        }
        if number >= 1 {
            strip_factor(&mut remaining, &mut factors, 2);
            strip_factor(&mut remaining, &mut factors, 3);
            proof {
                lemma_extend_past_multiples_low(remaining as int);
            }
            strip_factor(&mut remaining, &mut factors, 5);
            proof {
                assert forall|d: int| 6 <= d < 7 implies #[trigger] multiple_of_2_3_or_5(d) by {}
                lemma_extend_past_multiples(remaining as int, 6, 7);
            }
        } else {
            proof {
                assert forall|d: int| 2 <= d < 7 implies #[trigger] (1int % d) != 0 by {}
            }
        }
        let root = integer_sqrt(remaining);
        Factorization { number, remaining, candidate: 7, root, factors }
    }

    /// Whether every candidate up to the square root of what is left has
    /// been tried.
    pub fn is_done(&self) -> (r: bool)
        requires
            self.wf(),
        ensures
            r == self.spec_done(),
    {
        self.candidate > self.root
    }

    /// Tries the eight candidates of one round of 30.
    pub fn step(&mut self)
        requires
            old(self).wf(),
            !old(self).spec_done(),
        ensures
            final(self).wf(),
            final(self).spec_number() == old(self).spec_number(),
            final(self).spec_rounds_left() < old(self).spec_rounds_left(),
    {
        let c = self.candidate;
        proof {
            lemma_root_below(self.root as int, self.remaining as int, 0x1_0000_0000_0000_0000);
            if self.number == 0 {
                assert(self.root * self.root <= 1);
                assert(self.root <= 1) by (nonlinear_arith)
                    requires
                        self.root * self.root <= 1,
                ;
            }
        }
        strip_factor(&mut self.remaining, &mut self.factors, c);
        proof {
            lemma_wheel_step(self.remaining as int, c as int, 0, 4);
        }
        strip_factor(&mut self.remaining, &mut self.factors, c + 4);
        proof {
            lemma_wheel_step(self.remaining as int, c as int, 4, 6);
        }
        strip_factor(&mut self.remaining, &mut self.factors, c + 6);
        proof {
            lemma_wheel_step(self.remaining as int, c as int, 6, 10);
        }
        strip_factor(&mut self.remaining, &mut self.factors, c + 10);
        proof {
            lemma_wheel_step(self.remaining as int, c as int, 10, 12);
        }
        strip_factor(&mut self.remaining, &mut self.factors, c + 12);
        proof {
            lemma_wheel_step(self.remaining as int, c as int, 12, 16);
        }
        strip_factor(&mut self.remaining, &mut self.factors, c + 16);
        proof {
            lemma_wheel_step(self.remaining as int, c as int, 16, 22);
        }
        strip_factor(&mut self.remaining, &mut self.factors, c + 22);
        proof {
            lemma_wheel_step(self.remaining as int, c as int, 22, 24);
        }
        strip_factor(&mut self.remaining, &mut self.factors, c + 24);
        proof {
            lemma_wheel_step(self.remaining as int, c as int, 24, 30);
        }
        self.candidate = c + 30;
        self.root = integer_sqrt(self.remaining);
    }

    /// The prime factors found, with what is left appended when it is
    /// above 1.
    pub fn into_factors(self) -> (r: Vec<u128>)
        requires
            self.wf(),
            self.spec_done(),
        ensures
            is_prime_factorization(self.spec_number(), r@),
    {
        let mut factors = self.factors;
        let remaining = self.remaining;
        let c = self.candidate;
        let root = self.root;
        if remaining > 1 {
            proof {
                assert(c * c > remaining) by (nonlinear_arith)
                    requires
                        c >= root + 1,
                        remaining < (root + 1) * (root + 1),
                        root >= 0,
                ;
                lemma_prime_without_small_divisor(remaining as int, c as int);
                assert(remaining >= c) by {
                    if remaining < c {
                        assert(remaining as int % remaining as int == 0) by {
                            vstd::arithmetic::div_mod::lemma_mod_self_0(remaining as int);
                        }
                    }
                }
                lemma_product_push(factors@, remaining);
            }
            factors.push(remaining);
        } else {
            proof {
                assert(product(factors@) * 1 == product(factors@));
            }
        }
        factors
    }
}

/// The prime factors of `number` in non-decreasing order, each as often as
/// it divides `number`; none for 0 and 1.
pub fn prime_divisors(number: u128) -> (r: Vec<u128>)
    ensures
        is_prime_factorization(number, r@),
{
    let mut factorization = Factorization::new(number);
    while !factorization.is_done()
        invariant
            factorization.wf(),
            factorization.spec_number() == number,
        decreases factorization.spec_rounds_left(),
    {
        factorization.step();
    }
    factorization.into_factors()
}

/// Whether `n` is prime, by trial division: 2, 3 and 5, then every number
/// prime to 30 up to the square root of `n`.
pub fn divisibility_test(n: u64) -> (r: bool)
    ensures
        r == is_prime(n as int),
{
    if n < 2 {
        return false;
    }
    proof {
        vstd::arithmetic::div_mod::lemma_mod_mod(n as int, 2, 3);
        vstd::arithmetic::div_mod::lemma_mod_mod(n as int, 3, 2);
    }
    if n % 6 != 1 && n % 6 != 5 {
        proof {
            if n >= 4 {
                assert(n % 2 == 0 || n % 3 == 0);
            } else {
                assert(is_prime(n as int)) by {
                    assert forall|d: int| 2 <= d < n implies #[trigger] (n as int % d) != 0 by {}
                }
            }
        }
        return n < 4;
    }
    if n % 5 == 0 {
        proof {
            if n == 5 {
                assert(is_prime(5)) by {
                    assert forall|d: int| 2 <= d < 5 implies #[trigger] (5int % d) != 0 by {
                        assert(d == 2 || d == 3 || d == 4);
                        assert(5int % 2 == 1 && 5int % 3 == 2 && 5int % 4 == 1);
                    }
                }
            }
        }
        return n == 5;
    }
    proof {
        assert(n % 4 != 0) by {
            if n % 4 == 0 {
                lemma_divides_trans(n as int, 4, 2);
            }
        }
        assert(n % 6 != 0);
        assert(no_divisor_below(n as int, 7));
    }
    let wide_root = integer_sqrt(n as u128);
    proof {
        lemma_root_below(wide_root as int, n as int, 0x1_0000_0000);
    }
    let root: u64 = wide_root as u64;
    let mut c: u64 = 7;
    while c <= root
        invariant
            7 <= c <= root + 30,
            c % 30 == 7,
            root * root <= n < (root + 1) * (root + 1),
            root < 0x1_0000_0000,
            no_divisor_below(n as int, c as int),
        decreases root + 30 - c,
    {
        if n % (c) == 0 {
            proof {
                lemma_wheel_divisor_is_proper(n, c, (c) as int, root);
            }
            return false;
        }
        proof {
            lemma_wheel_step(n as int, c as int, 0, 4);
        }
        if n % (c + 4) == 0 {
            proof {
                lemma_wheel_divisor_is_proper(n, c, (c + 4) as int, root);
            }
            return false;
        }
        proof {
            lemma_wheel_step(n as int, c as int, 4, 6);
        }
        if n % (c + 6) == 0 {
            proof {
                lemma_wheel_divisor_is_proper(n, c, (c + 6) as int, root);
            }
            return false;
        }
        proof {
            lemma_wheel_step(n as int, c as int, 6, 10);
        }
        if n % (c + 10) == 0 {
            proof {
                lemma_wheel_divisor_is_proper(n, c, (c + 10) as int, root);
            }
            return false;
        }
        proof {
            lemma_wheel_step(n as int, c as int, 10, 12);
        }
        if n % (c + 12) == 0 {
            proof {
                lemma_wheel_divisor_is_proper(n, c, (c + 12) as int, root);
            }
            return false;
        }
        proof {
            lemma_wheel_step(n as int, c as int, 12, 16);
        }
        if n % (c + 16) == 0 {
            proof {
                lemma_wheel_divisor_is_proper(n, c, (c + 16) as int, root);
            }
            return false;
        }
        proof {
            lemma_wheel_step(n as int, c as int, 16, 22);
        }
        if n % (c + 22) == 0 {
            proof {
                lemma_wheel_divisor_is_proper(n, c, (c + 22) as int, root);
            }
            return false;
        }
        proof {
            lemma_wheel_step(n as int, c as int, 22, 24);
        }
        if n % (c + 24) == 0 {
            proof {
                lemma_wheel_divisor_is_proper(n, c, (c + 24) as int, root);
            }
            return false;
        }
        proof {
            lemma_wheel_step(n as int, c as int, 24, 30);
        }
        c = c + 30;
    }
    proof {
        assert(c * c > n) by (nonlinear_arith)
            requires
                c >= root + 1,
                n < (root + 1) * (root + 1),
                root >= 0,
        ;
        lemma_prime_without_small_divisor(n as int, c as int);
    }
    true
}

/// A wheel candidate found dividing `n` during trial division lies strictly
/// between 1 and `n`, so `n` is not prime.
proof fn lemma_wheel_divisor_is_proper(n: u64, c: u64, t: int, root: u64)
    requires
        7 <= c <= root,
        c <= t <= c + 24,
        root * root <= n,
        n as int % t == 0,
    ensures
        !is_prime(n as int),
{
    assert(t < n) by (nonlinear_arith)
        requires
            7 <= c <= root,
            t <= c + 24,
            root * root <= n,
    ;
    assert(n as int % t == 0);
}

/// 4 is even, so a number free of 2 and 3 as divisors is free of 4 too.
proof fn lemma_extend_past_multiples_low(r: int)
    requires
        no_divisor_below(r, 4),
    ensures
        no_divisor_below(r, 5),
{
    assert(r % 4 != 0) by {
        if r % 4 == 0 {
            lemma_divides_trans(r, 4, 2);
        }
    }
}

/// A number whose square is below `b * b` is below `b`.
proof fn lemma_root_below(root: int, n: int, b: int)
    requires
        0 <= root,
        0 <= b,
        root * root <= n < b * b,
    ensures
        root < b,
{
    if root >= b {
        assert(root * root >= b * b) by (nonlinear_arith)
            requires
                root >= b,
                b >= 0,
        ;
    }
}

} // verus!
