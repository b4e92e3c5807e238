#![allow(non_snake_case)]

use lib::Buffer;
use lib::Integer as _;

#[test]
fn test_u64_0() {
    let mut buffer = Buffer::new();
    let s = buffer.format(0u64);
    assert_eq!(s, "0");
}

#[test]
fn test_u64_half() {
    let mut buffer = Buffer::new();
    let s = buffer.format(u64::from(u32::MAX));
    assert_eq!(s, "4294967295");
}

#[test]
fn test_u64_max() {
    let mut buffer = Buffer::new();
    let s = buffer.format(u64::MAX);
    assert_eq!(s, "18446744073709551615");
}

#[test]
fn test_i64_min() {
    let mut buffer = Buffer::new();
    let s = buffer.format(i64::MIN);
    assert_eq!(s, "-9223372036854775808");
}

#[test]
fn test_i16_0() {
    let mut buffer = Buffer::new();
    let s = buffer.format(0i16);
    assert_eq!(s, "0");
}

#[test]
fn test_i16_min() {
    let mut buffer = Buffer::new();
    let s = buffer.format(i16::MIN);
    assert_eq!(s, "-32768");
}

#[test]
fn test_u128_0() {
    let mut buffer = Buffer::new();
    let s = buffer.format(0u128);
    assert_eq!(s, "0");
}

#[test]
fn test_u128_max() {
    let mut buffer = Buffer::new();
    let s = buffer.format(u128::MAX);
    assert_eq!(s, "340282366920938463463374607431768211455");
}

#[test]
fn test_i128_min() {
    let mut buffer = Buffer::new();
    let s = buffer.format(i128::MIN);
    assert_eq!(s, "-170141183460469231731687303715884105728");
}

#[test]
fn test_i128_max() {
    let mut buffer = Buffer::new();
    let s = buffer.format(i128::MAX);
    assert_eq!(s, "170141183460469231731687303715884105727");
}

#[test]
fn test_max_str_len() {
    assert_eq!(i8::MAX_STR_LEN, 4);
    assert_eq!(u8::MAX_STR_LEN, 3);
    assert_eq!(i16::MAX_STR_LEN, 6);
    assert_eq!(u16::MAX_STR_LEN, 5);
    assert_eq!(i32::MAX_STR_LEN, 11);
    assert_eq!(u32::MAX_STR_LEN, 10);
    assert_eq!(i64::MAX_STR_LEN, 20);
    assert_eq!(u64::MAX_STR_LEN, 20);
    assert_eq!(i128::MAX_STR_LEN, 40);
    assert_eq!(u128::MAX_STR_LEN, 39);
}

fn check<I>(value: I)
where
    I: lib::Integer + std::fmt::Display + Copy,
{
    let expected = value.to_string();
    let mut buffer = Buffer::new();
    assert_eq!(buffer.format(value), expected);
}

#[test]
fn exhaustive_16_bit() {
    for value in u16::MIN..=u16::MAX {
        check(value);
        check(i16::from_ne_bytes(value.to_ne_bytes()));
    }
}

#[test]
fn powers_of_ten_boundaries() {
    let mut power = 1u128;
    loop {
        check(power);
        check(power - 1);
        if let Some(next) = power.checked_add(1) {
            check(next);
        }

        if power <= i128::MAX as u128 {
            let signed = i128::try_from(power).expect("range checked");
            check(signed);
            check(-signed);
            check(signed - 1);
            check(-signed + 1);
            if let Some(next) = signed.checked_add(1) {
                check(next);
                check(-next);
            }
        }

        let Some(next) = power.checked_mul(10) else {
            break;
        };
        power = next;
    }
}

#[test]
fn sampled_wide_integers() {
    let mut state = 0x243f_6a88_85a3_08d3_u64;
    for _ in 0..10_000 {
        state ^= state << 13;
        state ^= state >> 7;
        state ^= state << 17;

        check(state);
        check(i64::from_ne_bytes(state.to_ne_bytes()));
        let low = u32::try_from(state & u64::from(u32::MAX)).expect("masked to u32");
        check(low);
        check(i32::from_ne_bytes(low.to_ne_bytes()));

        let wide = u128::from(state) * 0x9e37_79b9_7f4a_7c15_u128 + u128::from(!state);
        check(wide);
        check(i128::from_ne_bytes(wide.to_ne_bytes()));
    }

    check(u8::MIN);
    check(u8::MAX);
    check(i8::MIN);
    check(i8::MAX);
    check(usize::MIN);
    check(usize::MAX);
    check(isize::MIN);
    check(isize::MAX);
}
