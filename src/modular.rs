use vstd::arithmetic::power::pow;
use vstd::arithmetic::power2::pow2;
use vstd::prelude::*;

verus! {

/// The remainder of `x` divided by `m` with the quotient rounded toward zero,
/// as Rust's `%` computes it: the sign is that of `x`, the magnitude is
/// `|x| % |m|`.
pub open spec fn rem_trunc(x: int, m: int) -> int {
    let am = if m < 0 { -m } else { m };
    if x >= 0 {
        x % am
    } else {
        -((-x) % am)
    }
}

/// What raising `b` to the power `e` modulo `m` gives: `1` for a zero
/// exponent, else the truncated remainder of `b^e`.
pub open spec fn pow_mod_spec(b: int, e: nat, m: int) -> int {
    if e == 0 {
        1
    } else {
        rem_trunc(pow(b, e), m)
    }
}

pub open spec fn abs(x: int) -> int {
    if x < 0 {
        -x
    } else {
        x
    }
}

/// Negating the dividend negates the truncated remainder.
proof fn lemma_rem_trunc_neg(z: int, m: int)
    requires
        m != 0,
    ensures
        rem_trunc(-z, m) == -rem_trunc(z, m),
{
    vstd::arithmetic::div_mod::lemma_small_mod(0, abs(m) as nat);
}

/// Reducing the left factor first does not change the truncated remainder
/// of a product of two non-negative integers.
proof fn lemma_rem_trunc_mul_left_nonneg(x: int, y: int, m: int)
    requires
        m != 0,
        x >= 0,
        y >= 0,
    ensures
        rem_trunc(rem_trunc(x, m) * y, m) == rem_trunc(x * y, m),
{
    let big_m = abs(m);
    vstd::arithmetic::div_mod::lemma_mul_mod_noop_left(x, y, big_m);
    let t = x % big_m;
    assert(t * y >= 0 && x * y >= 0) by (nonlinear_arith)
        requires
            t >= 0,
            x >= 0,
            y >= 0,
    ;
}

/// Reducing the left factor first does not change the truncated remainder
/// of a product.
proof fn lemma_rem_trunc_mul_left(x: int, y: int, m: int)
    requires
        m != 0,
    ensures
        rem_trunc(rem_trunc(x, m) * y, m) == rem_trunc(x * y, m),
{
    let ax = abs(x);
    let ay = abs(y);
    lemma_rem_trunc_mul_left_nonneg(ax, ay, m);
    let t = rem_trunc(ax, m);
    lemma_rem_trunc_neg(x, m);
    lemma_rem_trunc_neg(ax * ay, m);
    lemma_rem_trunc_neg(t * ay, m);
    if x >= 0 && y >= 0 {
    } else if x >= 0 {
        assert(t * y == -(t * ay) && x * y == -(ax * ay)) by (nonlinear_arith)
            requires
                y == -ay,
                x == ax,
        ;
    } else if y >= 0 {
        assert(rem_trunc(x, m) == -t);
        assert((-t) * y == -(t * ay) && x * y == -(ax * ay)) by (nonlinear_arith)
            requires
                y == ay,
                x == -ax,
        ;
    } else {
        assert(rem_trunc(x, m) == -t);
        assert((-t) * y == t * ay && x * y == ax * ay) by (nonlinear_arith)
            requires
                y == -ay,
                x == -ax,
        ;
    }
}

/// Reducing either factor or both does not change the truncated remainder
/// of a product.
proof fn lemma_rem_trunc_mul(x: int, y: int, m: int)
    requires
        m != 0,
    ensures
        rem_trunc(rem_trunc(x, m) * y, m) == rem_trunc(x * y, m),
        rem_trunc(x * rem_trunc(y, m), m) == rem_trunc(x * y, m),
        rem_trunc(rem_trunc(x, m) * rem_trunc(y, m), m) == rem_trunc(x * y, m),
{
    lemma_rem_trunc_mul_left(x, y, m);
    lemma_rem_trunc_mul_left(y, x, m);
    lemma_rem_trunc_mul_left(x, rem_trunc(y, m), m);
    assert(x * y == y * x) by (nonlinear_arith);
    assert(x * rem_trunc(y, m) == rem_trunc(y, m) * x) by (nonlinear_arith);
}

/// The operations that repeated squaring needs: the unit, and a product
/// modulo a third value computed in a wider type.
trait WideningMulMod: Sized + Copy {
    spec fn wide_value(self) -> int;

    fn one() -> (r: Self)
        ensures
            r.wide_value() == 1,
    ;

    fn wide_mul_mod(self, other: Self, modulus: Self) -> (r: Self)
        requires
            modulus.wide_value() != 0,
        ensures
            r.wide_value() == rem_trunc(
                self.wide_value() * other.wide_value(),
                modulus.wide_value(),
            ),
    ;
}

/// Relies on num_bigint's `BigUint` product and remainder, which are exact.
#[verifier::external_body]
fn big_unsigned_mul_mod(a: u128, b: u128, m: u128) -> (r: u128)
    requires
        m != 0,
    ensures
        r == (a * b) % (m as int),
{
    let product = num_bigint::BigUint::from(a) * num_bigint::BigUint::from(b);
    num::ToPrimitive::to_u128(&(product % num_bigint::BigUint::from(m))).unwrap()
}

/// Relies on num_bigint's `BigInt` product and remainder; the remainder takes
/// the sign of the dividend, as Rust's `%` does.
#[verifier::external_body]
fn big_signed_mul_mod(a: i128, b: i128, m: i128) -> (r: i128)
    requires
        m != 0,
    ensures
        r == rem_trunc(a * b, m as int),
{
    let product = num_bigint::BigInt::from(a) * num_bigint::BigInt::from(b);
    num::ToPrimitive::to_i128(&(product % num_bigint::BigInt::from(m))).unwrap()
}

/// Square-and-multiply over the bits of `exponent`, least significant first,
/// for any type whose `mul_mod` is exact.
fn square_and_multiply<T: WideningMulMod>(base: T, exponent: u128, modulus: T) -> (r: T)
    requires
        modulus.wide_value() != 0,
    ensures
        r.wide_value() == pow_mod_spec(base.wide_value(), exponent as nat, modulus.wide_value()),
{
    let ghost b = base.wide_value();
    let ghost m = modulus.wide_value();
    let mut result = T::one();
    let mut square = base;
    let mut e = exponent;
    let ghost mut k: nat = 0;
    let ghost mut low: nat = 0;
    proof {
        vstd::arithmetic::power::lemma_pow1(b);
        vstd::arithmetic::power2::lemma_pow2(0);
        vstd::arithmetic::power::lemma_pow0(2);
    }
    while e > 0
        invariant
            m == modulus.wide_value(),
            b == base.wide_value(),
            m != 0,
            exponent == low + e * pow2(k),
            low < pow2(k),
            low == 0 ==> result.wide_value() == 1,
            low > 0 ==> result.wide_value() == rem_trunc(pow(b, low), m),
            k == 0 ==> square.wide_value() == b,
            k > 0 ==> square.wide_value() == rem_trunc(pow(b, pow2(k)), m),
            pow(b, pow2(0)) == b,
        decreases e,
    {
        let ghost q = pow(b, pow2(k));
        let ghost s = square.wide_value();
        proof {
            vstd::arithmetic::power2::lemma_pow2_unfold(k + 1);
            vstd::arithmetic::power::lemma_pow_adds(b, pow2(k), pow2(k));
            vstd::arithmetic::power::lemma_pow_adds(b, low, pow2(k));
            lemma_rem_trunc_mul(q, q, m);
            lemma_rem_trunc_mul(pow(b, low), q, m);
            lemma_rem_trunc_mul(1, q, m);
            assert(rem_trunc(s, m) == rem_trunc(q, m)) by {
                assert(1 * s == s);
                assert(1 * q == q);
            }
            assert(s * s == s * s);
        }
        if e % 2 == 1 {
            let ghost old_result = result.wide_value();
            result = result.wide_mul_mod(square, modulus);
            proof {
                assert(result.wide_value() == rem_trunc(old_result * s, m));
                if low == 0 {
                    assert(old_result * s == s);
                    assert(pow(b, (low + pow2(k)) as nat) == q) by {
                        vstd::arithmetic::power::lemma_pow0(b);
                        assert(pow(b, low) * q == q);
                    }
                } else {
                    assert(rem_trunc(old_result * s, m) == rem_trunc(pow(b, low) * q, m));
                }
                assert(result.wide_value() == rem_trunc(pow(b, (low + pow2(k)) as nat), m));
            }
        }
        square = square.wide_mul_mod(square, modulus);
        proof {
            let bit: nat = (e % 2) as nat;
            assert(bit == 1 ==> low + bit * pow2(k) == low + pow2(k));
            assert(bit == 0 ==> low + bit * pow2(k) == low) by (nonlinear_arith);
            assert(e == (e / 2) * 2 + bit);
            assert(e * pow2(k) == (e / 2) * pow2(k + 1) + bit * pow2(k)) by (nonlinear_arith)
                requires
                    e == (e / 2) * 2 + bit,
                    pow2(k + 1) == 2 * pow2(k),
            ;
            assert(low + bit * pow2(k) < pow2(k + 1)) by (nonlinear_arith)
                requires
                    low < pow2(k),
                    bit <= 1,
                    pow2(k + 1) == 2 * pow2(k),
            ;
            low = low + bit * pow2(k);
            k = k + 1;
        }
        e = e / 2;
    }
    result
}

/// The predecessor of a modulus squares to 1: `(m - 1) * (m - 1)` leaves
/// remainder 1 modulo any `m >= 2`, so `mul_mod(MAX - 1, MAX - 1, MAX) == 1`
/// for the largest value `MAX` of every type.
pub proof fn square_of_predecessor(m: int)
    requires
        m >= 2,
    ensures
        rem_trunc((m - 1) * (m - 1), m) == 1,
{
    assert((m - 1) * (m - 1) == (m - 2) * m + 1) by (nonlinear_arith);
    assert((m - 1) * (m - 1) >= 0) by (nonlinear_arith);
    vstd::arithmetic::div_mod::lemma_fundamental_div_mod_converse(
        (m - 1) * (m - 1),
        m,
        m - 2,
        1,
    );
}

/// Multiply two integers modulo a third, and raise to a power modulo a
/// third, without overflowing the type.
pub trait PowMod: Sized {
    /// The integer that a value of the type stands for.
    spec fn value(self) -> int;

    /// `(self * other) % modulus`, computed in a wider type.
    fn mul_mod(self, other: Self, modulus: Self) -> (r: Self)
        requires
            modulus.value() != 0,
        ensures
            r.value() == rem_trunc(self.value() * other.value(), modulus.value()),
    ;

    /// `self` raised to `exponent`, modulo `modulus`, by repeated squaring.
    fn pow_mod(self, exponent: u128, modulus: Self) -> (r: Self)
        requires
            modulus.value() != 0,
        ensures
            r.value() == pow_mod_spec(self.value(), exponent as nat, modulus.value()),
    ;
}

/// The Euclidean remainder by a negative divisor equals the one by its
/// magnitude.
proof fn lemma_mod_negative_divisor(x: int, m: int)
    requires
        m < 0,
    ensures
        x % m == x % (-m),
{
    vstd::arithmetic::div_mod::lemma_fundamental_div_mod(x, m);
    let q = x / m;
    let r = x % m;
    assert(0 <= r < -m);
    assert(x == (-q) * (-m) + r) by (nonlinear_arith)
        requires
            x == m * q + r,
    ;
    vstd::arithmetic::div_mod::lemma_fundamental_div_mod_converse(x, -m, -q, r);
}

/// The Euclidean remainder does not depend on the sign of the divisor.
proof fn lemma_mod_neg_divisor(x: int, m: int)
    requires
        m != 0,
    ensures
        x % m == x % (-m),
{
    if m < 0 {
        lemma_mod_negative_divisor(x, m);
    } else {
        lemma_mod_negative_divisor(x, -m);
    }
}

/// What Rust's `%` computes on signed operands, in the terms of `rem_trunc`.
proof fn lemma_signed_rem(x: int, m: int)
    requires
        m != 0,
    ensures
        rem_trunc(x, m) == (if x >= 0 { x % m } else { -((-x) % m) }),
        -(if m < 0 { -m } else { m }) < rem_trunc(x, m) < (if m < 0 { -m } else { m }),
{
    lemma_mod_neg_divisor(x, m);
    lemma_mod_neg_divisor(-x, m);
}

/// Bounds the magnitude of a product by the bounds of its factors.
proof fn lemma_product_bound(a: int, b: int, bound: int)
    requires
        -bound <= a <= bound,
        -bound <= b <= bound,
    ensures
        -(bound * bound) <= a * b <= bound * bound,
{
    assert(-(bound * bound) <= a * b <= bound * bound) by (nonlinear_arith)
        requires
            -bound <= a <= bound,
            -bound <= b <= bound,
    ;
}

impl WideningMulMod for u8 {
    spec fn wide_value(self) -> int {
        self as int
    }

    fn one() -> (r: u8) {
        1
    }

    fn wide_mul_mod(self, other: u8, modulus: u8) -> (r: u8) {
        proof {
            lemma_product_bound(self as int, other as int, 255);
        }
        (self as u16 * other as u16 % modulus as u16) as u8
    }
}

impl PowMod for u8 {
    open spec fn value(self) -> int {
        self as int
    }

    fn mul_mod(self, other: u8, modulus: u8) -> (r: u8) {
        self.wide_mul_mod(other, modulus)
    }

    fn pow_mod(self, exponent: u128, modulus: u8) -> (r: u8) {
        square_and_multiply(self, exponent, modulus)
    }
}

impl WideningMulMod for u16 {
    spec fn wide_value(self) -> int {
        self as int
    }

    fn one() -> (r: u16) {
        1
    }

    fn wide_mul_mod(self, other: u16, modulus: u16) -> (r: u16) {
        proof {
            lemma_product_bound(self as int, other as int, 65535);
        }
        (self as u32 * other as u32 % modulus as u32) as u16
    }
}

impl PowMod for u16 {
    open spec fn value(self) -> int {
        self as int
    }

    fn mul_mod(self, other: u16, modulus: u16) -> (r: u16) {
        self.wide_mul_mod(other, modulus)
    }

    fn pow_mod(self, exponent: u128, modulus: u16) -> (r: u16) {
        square_and_multiply(self, exponent, modulus)
    }
}

impl WideningMulMod for u32 {
    spec fn wide_value(self) -> int {
        self as int
    }

    fn one() -> (r: u32) {
        1
    }

    fn wide_mul_mod(self, other: u32, modulus: u32) -> (r: u32) {
        proof {
            lemma_product_bound(self as int, other as int, 4294967295);
        }
        (self as u64 * other as u64 % modulus as u64) as u32
    }
}

impl PowMod for u32 {
    open spec fn value(self) -> int {
        self as int
    }

    fn mul_mod(self, other: u32, modulus: u32) -> (r: u32) {
        self.wide_mul_mod(other, modulus)
    }

    fn pow_mod(self, exponent: u128, modulus: u32) -> (r: u32) {
        square_and_multiply(self, exponent, modulus)
    }
}

impl WideningMulMod for u64 {
    spec fn wide_value(self) -> int {
        self as int
    }

    fn one() -> (r: u64) {
        1
    }

    fn wide_mul_mod(self, other: u64, modulus: u64) -> (r: u64) {
        proof {
            lemma_product_bound(self as int, other as int, 18446744073709551615);
        }
        (self as u128 * other as u128 % modulus as u128) as u64
    }
}

impl PowMod for u64 {
    open spec fn value(self) -> int {
        self as int
    }

    fn mul_mod(self, other: u64, modulus: u64) -> (r: u64) {
        self.wide_mul_mod(other, modulus)
    }

    fn pow_mod(self, exponent: u128, modulus: u64) -> (r: u64) {
        square_and_multiply(self, exponent, modulus)
    }
}

impl WideningMulMod for usize {
    spec fn wide_value(self) -> int {
        self as int
    }

    fn one() -> (r: usize) {
        1
    }

    fn wide_mul_mod(self, other: usize, modulus: usize) -> (r: usize) {
        proof {
            lemma_product_bound(self as int, other as int, 18446744073709551615);
        }
        (self as u128 * other as u128 % modulus as u128) as usize
    }
}

impl PowMod for usize {
    open spec fn value(self) -> int {
        self as int
    }

    fn mul_mod(self, other: usize, modulus: usize) -> (r: usize) {
        self.wide_mul_mod(other, modulus)
    }

    fn pow_mod(self, exponent: u128, modulus: usize) -> (r: usize) {
        square_and_multiply(self, exponent, modulus)
    }
}

impl WideningMulMod for i8 {
    spec fn wide_value(self) -> int {
        self as int
    }

    fn one() -> (r: i8) {
        1
    }

    fn wide_mul_mod(self, other: i8, modulus: i8) -> (r: i8) {
        proof {
            lemma_product_bound(self as int, other as int, 128);
        }
        let product: i16 = self as i16 * other as i16;
        proof {
            lemma_signed_rem(product as int, modulus as int);
        }
        (product % modulus as i16) as i8
    }
}

impl PowMod for i8 {
    open spec fn value(self) -> int {
        self as int
    }

    fn mul_mod(self, other: i8, modulus: i8) -> (r: i8) {
        self.wide_mul_mod(other, modulus)
    }

    fn pow_mod(self, exponent: u128, modulus: i8) -> (r: i8) {
        square_and_multiply(self, exponent, modulus)
    }
}

impl WideningMulMod for i16 {
    spec fn wide_value(self) -> int {
        self as int
    }

    fn one() -> (r: i16) {
        1
    }

    fn wide_mul_mod(self, other: i16, modulus: i16) -> (r: i16) {
        proof {
            lemma_product_bound(self as int, other as int, 32768);
        }
        let product: i32 = self as i32 * other as i32;
        proof {
            lemma_signed_rem(product as int, modulus as int);
        }
        (product % modulus as i32) as i16
    }
}

impl PowMod for i16 {
    open spec fn value(self) -> int {
        self as int
    }

    fn mul_mod(self, other: i16, modulus: i16) -> (r: i16) {
        self.wide_mul_mod(other, modulus)
    }

    fn pow_mod(self, exponent: u128, modulus: i16) -> (r: i16) {
        square_and_multiply(self, exponent, modulus)
    }
}

impl WideningMulMod for i32 {
    spec fn wide_value(self) -> int {
        self as int
    }

    fn one() -> (r: i32) {
        1
    }

    fn wide_mul_mod(self, other: i32, modulus: i32) -> (r: i32) {
        proof {
            lemma_product_bound(self as int, other as int, 2147483648);
        }
        let product: i64 = self as i64 * other as i64;
        proof {
            lemma_signed_rem(product as int, modulus as int);
        }
        (product % modulus as i64) as i32
    }
}

impl PowMod for i32 {
    open spec fn value(self) -> int {
        self as int
    }

    fn mul_mod(self, other: i32, modulus: i32) -> (r: i32) {
        self.wide_mul_mod(other, modulus)
    }

    fn pow_mod(self, exponent: u128, modulus: i32) -> (r: i32) {
        square_and_multiply(self, exponent, modulus)
    }
}

impl WideningMulMod for i64 {
    spec fn wide_value(self) -> int {
        self as int
    }

    fn one() -> (r: i64) {
        1
    }

    fn wide_mul_mod(self, other: i64, modulus: i64) -> (r: i64) {
        proof {
            lemma_product_bound(self as int, other as int, 9223372036854775808);
        }
        let product: i128 = self as i128 * other as i128;
        proof {
            lemma_signed_rem(product as int, modulus as int);
        }
        (product % modulus as i128) as i64
    }
}

impl PowMod for i64 {
    open spec fn value(self) -> int {
        self as int
    }

    fn mul_mod(self, other: i64, modulus: i64) -> (r: i64) {
        self.wide_mul_mod(other, modulus)
    }

    fn pow_mod(self, exponent: u128, modulus: i64) -> (r: i64) {
        square_and_multiply(self, exponent, modulus)
    }
}

impl WideningMulMod for isize {
    spec fn wide_value(self) -> int {
        self as int
    }

    fn one() -> (r: isize) {
        1
    }

    fn wide_mul_mod(self, other: isize, modulus: isize) -> (r: isize) {
        proof {
            lemma_product_bound(self as int, other as int, 9223372036854775808);
        }
        let product: i128 = self as i128 * other as i128;
        proof {
            lemma_signed_rem(product as int, modulus as int);
        }
        (product % modulus as i128) as isize
    }
}

impl PowMod for isize {
    open spec fn value(self) -> int {
        self as int
    }

    fn mul_mod(self, other: isize, modulus: isize) -> (r: isize) {
        self.wide_mul_mod(other, modulus)
    }

    fn pow_mod(self, exponent: u128, modulus: isize) -> (r: isize) {
        square_and_multiply(self, exponent, modulus)
    }
}

impl WideningMulMod for u128 {
    spec fn wide_value(self) -> int {
        self as int
    }

    fn one() -> (r: u128) {
        1
    }

    fn wide_mul_mod(self, other: u128, modulus: u128) -> (r: u128) {
        if self <= 18446744073709551615 && other <= 18446744073709551615 {
            proof {
                lemma_product_bound(self as int, other as int, 18446744073709551615);
            }
            self * other % modulus
        } else {
            big_unsigned_mul_mod(self, other, modulus)
        }
    }
}

impl PowMod for u128 {
    open spec fn value(self) -> int {
        self as int
    }

    fn mul_mod(self, other: u128, modulus: u128) -> (r: u128) {
        self.wide_mul_mod(other, modulus)
    }

    fn pow_mod(self, exponent: u128, modulus: u128) -> (r: u128) {
        square_and_multiply(self, exponent, modulus)
    }
}

impl WideningMulMod for i128 {
    spec fn wide_value(self) -> int {
        self as int
    }

    fn one() -> (r: i128) {
        1
    }

    fn wide_mul_mod(self, other: i128, modulus: i128) -> (r: i128) {
        let half: i128 = 9223372036854775807;
        if -half <= self && self <= half && -half <= other && other <= half {
            proof {
                lemma_product_bound(self as int, other as int, half as int);
            }
            let product: i128 = self * other;
            proof {
                lemma_signed_rem(product as int, modulus as int);
            }
            product % modulus
        } else {
            big_signed_mul_mod(self, other, modulus)
        }
    }
}

impl PowMod for i128 {
    open spec fn value(self) -> int {
        self as int
    }

    fn mul_mod(self, other: i128, modulus: i128) -> (r: i128) {
        self.wide_mul_mod(other, modulus)
    }

    fn pow_mod(self, exponent: u128, modulus: i128) -> (r: i128) {
        square_and_multiply(self, exponent, modulus)
    }
}

impl<T: PowMod + Copy> PowMod for std::rc::Rc<T> {
    open spec fn value(self) -> int {
        (*self).value()
    }

    fn mul_mod(self, other: Self, modulus: Self) -> (r: Self) {
        std::rc::Rc::new((*self).mul_mod(*other, *modulus))
    }

    fn pow_mod(self, exponent: u128, modulus: Self) -> (r: Self) {
        std::rc::Rc::new((*self).pow_mod(exponent, *modulus))
    }
}

impl<T: PowMod + Copy> PowMod for std::sync::Arc<T> {
    open spec fn value(self) -> int {
        (*self).value()
    }

    fn mul_mod(self, other: Self, modulus: Self) -> (r: Self) {
        std::sync::Arc::new((*self).mul_mod(*other, *modulus))
    }

    fn pow_mod(self, exponent: u128, modulus: Self) -> (r: Self) {
        std::sync::Arc::new((*self).pow_mod(exponent, *modulus))
    }
}

/// The operations of `PowMod` on a borrowed receiver.
pub trait PowModRef: PowMod {
    fn mul_mod(&self, other: Self, modulus: Self) -> (r: Self)
        requires
            modulus.value() != 0,
        ensures
            r.value() == rem_trunc(self.value() * other.value(), modulus.value()),
    ;

    fn pow_mod(&self, exponent: u128, modulus: Self) -> (r: Self)
        requires
            modulus.value() != 0,
        ensures
            r.value() == pow_mod_spec(self.value(), exponent as nat, modulus.value()),
    ;
}

impl<T: PowMod + Copy> PowModRef for T {
    fn mul_mod(&self, other: T, modulus: T) -> (r: T) {
        <T as PowMod>::mul_mod(*self, other, modulus)
    }

    fn pow_mod(&self, exponent: u128, modulus: T) -> (r: T) {
        <T as PowMod>::pow_mod(*self, exponent, modulus)
    }
}

} // verus!
