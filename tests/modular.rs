use milans_rust_core::modular::{PowMod, PowModRef};
use std::rc::Rc;
use std::sync::Arc;

#[test]
fn pow_mod() {
    assert_eq!(<u8 as PowMod>::mul_mod(6, 4, u8::MAX), 24);
    assert_eq!(
        <Rc<u8> as PowMod>::mul_mod(Rc::new(6), Rc::new(4), Rc::new(u8::MAX)),
        Rc::new(24)
    );
    assert_eq!(<u8 as PowModRef>::mul_mod(&6, 4, u8::MAX), 24);
    assert_eq!(<u8 as PowMod>::pow_mod(6, 3, 16), 8);
    assert_eq!(<u8 as PowMod>::mul_mod(u8::MAX - 1, u8::MAX - 1, u8::MAX), 1);
    assert_eq!(<i8 as PowMod>::mul_mod(6, 4, i8::MAX), 24);
    assert_eq!(
        <Rc<i8> as PowMod>::mul_mod(Rc::new(6), Rc::new(4), Rc::new(i8::MAX)),
        Rc::new(24)
    );
    assert_eq!(<i8 as PowModRef>::mul_mod(&6, 4, i8::MAX), 24);
    assert_eq!(<i8 as PowMod>::pow_mod(6, 3, 16), 8);
    assert_eq!(<i8 as PowMod>::mul_mod(i8::MAX - 1, i8::MAX - 1, i8::MAX), 1);
    assert_eq!(<u16 as PowMod>::mul_mod(6, 4, u16::MAX), 24);
    assert_eq!(
        <Rc<u16> as PowMod>::mul_mod(Rc::new(6), Rc::new(4), Rc::new(u16::MAX)),
        Rc::new(24)
    );
    assert_eq!(<u16 as PowModRef>::mul_mod(&6, 4, u16::MAX), 24);
    assert_eq!(<u16 as PowMod>::pow_mod(6, 3, 16), 8);
    assert_eq!(<u16 as PowMod>::mul_mod(u16::MAX - 1, u16::MAX - 1, u16::MAX), 1);
    assert_eq!(<i16 as PowMod>::mul_mod(6, 4, i16::MAX), 24);
    assert_eq!(
        <Rc<i16> as PowMod>::mul_mod(Rc::new(6), Rc::new(4), Rc::new(i16::MAX)),
        Rc::new(24)
    );
    assert_eq!(<i16 as PowModRef>::mul_mod(&6, 4, i16::MAX), 24);
    assert_eq!(<i16 as PowMod>::pow_mod(6, 3, 16), 8);
    assert_eq!(<i16 as PowMod>::mul_mod(i16::MAX - 1, i16::MAX - 1, i16::MAX), 1);
    assert_eq!(<u32 as PowMod>::mul_mod(6, 4, u32::MAX), 24);
    assert_eq!(
        <Rc<u32> as PowMod>::mul_mod(Rc::new(6), Rc::new(4), Rc::new(u32::MAX)),
        Rc::new(24)
    );
    assert_eq!(<u32 as PowModRef>::mul_mod(&6, 4, u32::MAX), 24);
    assert_eq!(<u32 as PowMod>::pow_mod(6, 3, 16), 8);
    assert_eq!(<u32 as PowMod>::mul_mod(u32::MAX - 1, u32::MAX - 1, u32::MAX), 1);
    assert_eq!(<i32 as PowMod>::mul_mod(6, 4, i32::MAX), 24);
    assert_eq!(
        <Rc<i32> as PowMod>::mul_mod(Rc::new(6), Rc::new(4), Rc::new(i32::MAX)),
        Rc::new(24)
    );
    assert_eq!(<i32 as PowModRef>::mul_mod(&6, 4, i32::MAX), 24);
    assert_eq!(<i32 as PowMod>::pow_mod(6, 3, 16), 8);
    assert_eq!(<i32 as PowMod>::mul_mod(i32::MAX - 1, i32::MAX - 1, i32::MAX), 1);
    assert_eq!(<u64 as PowMod>::mul_mod(6, 4, u64::MAX), 24);
    assert_eq!(
        <Rc<u64> as PowMod>::mul_mod(Rc::new(6), Rc::new(4), Rc::new(u64::MAX)),
        Rc::new(24)
    );
    assert_eq!(<u64 as PowModRef>::mul_mod(&6, 4, u64::MAX), 24);
    assert_eq!(<u64 as PowMod>::pow_mod(6, 3, 16), 8);
    assert_eq!(<u64 as PowMod>::mul_mod(u64::MAX - 1, u64::MAX - 1, u64::MAX), 1);
    assert_eq!(<i64 as PowMod>::mul_mod(6, 4, i64::MAX), 24);
    assert_eq!(
        <Rc<i64> as PowMod>::mul_mod(Rc::new(6), Rc::new(4), Rc::new(i64::MAX)),
        Rc::new(24)
    );
    assert_eq!(<i64 as PowModRef>::mul_mod(&6, 4, i64::MAX), 24);
    assert_eq!(<i64 as PowMod>::pow_mod(6, 3, 16), 8);
    assert_eq!(<i64 as PowMod>::mul_mod(i64::MAX - 1, i64::MAX - 1, i64::MAX), 1);
    assert_eq!(<u128 as PowMod>::mul_mod(6, 4, u128::MAX), 24);
    assert_eq!(
        <Rc<u128> as PowMod>::mul_mod(Rc::new(6), Rc::new(4), Rc::new(u128::MAX)),
        Rc::new(24)
    );
    assert_eq!(<u128 as PowModRef>::mul_mod(&6, 4, u128::MAX), 24);
    assert_eq!(<u128 as PowMod>::pow_mod(6, 3, 16), 8);
    assert_eq!(<u128 as PowMod>::mul_mod(u128::MAX - 1, u128::MAX - 1, u128::MAX), 1);
    assert_eq!(<i128 as PowMod>::mul_mod(6, 4, i128::MAX), 24);
    assert_eq!(
        <Rc<i128> as PowMod>::mul_mod(Rc::new(6), Rc::new(4), Rc::new(i128::MAX)),
        Rc::new(24)
    );
    assert_eq!(<i128 as PowModRef>::mul_mod(&6, 4, i128::MAX), 24);
    assert_eq!(<i128 as PowMod>::pow_mod(6, 3, 16), 8);
    assert_eq!(<i128 as PowMod>::mul_mod(i128::MAX - 1, i128::MAX - 1, i128::MAX), 1);
    assert_eq!(<usize as PowMod>::mul_mod(6, 4, usize::MAX), 24);
    assert_eq!(
        <Rc<usize> as PowMod>::mul_mod(Rc::new(6), Rc::new(4), Rc::new(usize::MAX)),
        Rc::new(24)
    );
    assert_eq!(<usize as PowModRef>::mul_mod(&6, 4, usize::MAX), 24);
    assert_eq!(<usize as PowMod>::pow_mod(6, 3, 16), 8);
    assert_eq!(<usize as PowMod>::mul_mod(usize::MAX - 1, usize::MAX - 1, usize::MAX), 1);
    assert_eq!(<isize as PowMod>::mul_mod(6, 4, isize::MAX), 24);
    assert_eq!(
        <Rc<isize> as PowMod>::mul_mod(Rc::new(6), Rc::new(4), Rc::new(isize::MAX)),
        Rc::new(24)
    );
    assert_eq!(<isize as PowModRef>::mul_mod(&6, 4, isize::MAX), 24);
    assert_eq!(<isize as PowMod>::pow_mod(6, 3, 16), 8);
    assert_eq!(<isize as PowMod>::mul_mod(isize::MAX - 1, isize::MAX - 1, isize::MAX), 1);
}

#[test]
fn pow_mod_small_cases() {
    assert_eq!(<u64 as PowMod>::pow_mod(2, 8, 9), 4);
    assert_eq!(<u64 as PowMod>::pow_mod(2, 26, 27), 13);
    assert_eq!(<u8 as PowMod>::pow_mod(2, 8, 9), 4);
    assert_eq!(<i32 as PowMod>::pow_mod(2, 26, 27), 13);
}

#[test]
fn pow_mod_zero_exponent_is_one() {
    assert_eq!(<u32 as PowMod>::pow_mod(12345, 0, 7), 1);
    assert_eq!(<u32 as PowMod>::pow_mod(5, 0, 1), 1);
    assert_eq!(<u32 as PowMod>::pow_mod(5, 1, 1), 0);
}

#[test]
fn mul_mod_signed_follows_rust_remainder() {
    assert_eq!(<i8 as PowMod>::mul_mod(-7, 3, 5), -1);
    assert_eq!(<i8 as PowMod>::mul_mod(-128, -128, 127), (16384i32 % 127) as i8);
    assert_eq!(<i64 as PowMod>::mul_mod(-3, 5, -4), -3);
    assert_eq!(<i128 as PowMod>::mul_mod(i128::MIN, i128::MIN, i128::MAX), 1);
    assert_eq!(<i128 as PowMod>::mul_mod(-(1i128 << 100), 3, 1000), -((3i128 << 100) % 1000));
    assert_eq!(<i32 as PowMod>::pow_mod(-2, 3, 5), -3);
}

#[test]
fn mul_mod_wide_operands() {
    let a: u128 = u128::MAX - 2;
    let b: u128 = 1u128 << 100;
    let m: u128 = (1u128 << 127) + 1;
    // (2^128 - 3) * 2^100 mod (2^127 + 1), checked through smaller identities:
    // 2^127 = -1 (mod m), so 2^128 = -2 and a = -5, and 2^100 * -5 = m - 5 * 2^100.
    assert_eq!(<u128 as PowMod>::mul_mod(a, b, m), m - 5 * (1u128 << 100));
    assert_eq!(<u128 as PowMod>::pow_mod(2, 127, m), m - 1);
    assert_eq!(<u128 as PowMod>::pow_mod(3, 1000, 1_000_000_007), pow_small(3, 1000, 1_000_000_007));
}

fn pow_small(base: u64, exponent: u32, modulus: u64) -> u128 {
    let mut result: u64 = 1;
    for _ in 0..exponent {
        result = result * base % modulus;
    }
    result as u128
}

#[test]
fn arc_wraps_the_value() {
    assert_eq!(<Arc<u16> as PowMod>::pow_mod(Arc::new(3), 4, Arc::new(10)), Arc::new(1));
    assert_eq!(<Rc<i64> as PowMod>::pow_mod(Rc::new(3), 4, Rc::new(10)), Rc::new(1));
    assert_eq!(<u16 as PowModRef>::pow_mod(&3, 4, 10), 1);
}
