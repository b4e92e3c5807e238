use lib::bcd::write_be_u32;
use lib::pairs::{write_pair, write_quad};
use lib::wide::mulhi;
use lib::{div_rem_1e16, divmod100, to_bcd4, Buffer, Integer};

#[test]
fn divmod100_values() {
    assert_eq!(divmod100(0), (0, 0));
    assert_eq!(divmod100(99), (0, 99));
    assert_eq!(divmod100(100), (1, 0));
    assert_eq!(divmod100(1234), (12, 34));
    assert_eq!(divmod100(9999), (99, 99));
    for value in 0..10_000u32 {
        assert_eq!(divmod100(value), (value / 100, value % 100));
    }
}

#[test]
fn to_bcd4_values() {
    assert_eq!(to_bcd4(0), 0);
    assert_eq!(to_bcd4(7), 0x0000_0007);
    assert_eq!(to_bcd4(42), 0x0000_0402);
    assert_eq!(to_bcd4(1234), 0x0102_0304);
    assert_eq!(to_bcd4(9999), 0x0909_0909);
    assert_eq!(to_bcd4(5060), 0x0500_0600);
}

#[test]
fn write_be_u32_stores_most_significant_first() {
    let mut buf = [0u8; 40];
    write_be_u32(&mut buf, 3, 0x3132_3334);
    assert_eq!(&buf[3..7], b"1234");
    assert_eq!(buf[2], 0);
    assert_eq!(buf[7], 0);
}

#[test]
fn div_rem_1e16_values() {
    assert_eq!(div_rem_1e16(0), (0, 0));
    assert_eq!(div_rem_1e16(9_999_999_999_999_999), (0, 9_999_999_999_999_999));
    assert_eq!(div_rem_1e16(10_000_000_000_000_000), (1, 0));
    assert_eq!(div_rem_1e16(12_345_678_901_234_567_890), (1234, 5_678_901_234_567_890));
    assert_eq!(
        div_rem_1e16(u128::MAX),
        (34_028_236_692_093_846_346_337, 4_607_431_768_211_455)
    );
    let mut n = 1u128;
    for _ in 0..200 {
        let (q, r) = div_rem_1e16(n);
        assert_eq!(q, n / 10_000_000_000_000_000);
        assert_eq!(r as u128, n % 10_000_000_000_000_000);
        n = n.wrapping_mul(0x9e37_79b9_7f4a_7c15).wrapping_add(12345);
    }
}

#[test]
fn mulhi_values() {
    assert_eq!(mulhi(0, u128::MAX), 0);
    assert_eq!(mulhi(1 << 127, 4), 2);
    assert_eq!(mulhi(u128::MAX, u128::MAX), u128::MAX - 1);
    assert_eq!(mulhi(1 << 64, 1 << 64), 1);
    assert_eq!(mulhi(u128::MAX, 2), 1);
}

#[test]
fn pairs_and_quads_are_zero_padded() {
    let mut buf = [b'x'; 40];
    write_pair(&mut buf, 0, 7);
    assert_eq!(&buf[0..2], b"07");
    write_pair(&mut buf, 2, 99);
    assert_eq!(&buf[0..4], b"0799");
    write_quad(&mut buf, 10, 42);
    assert_eq!(&buf[10..14], b"0042");
    write_quad(&mut buf, 36, 9876);
    assert_eq!(&buf[36..40], b"9876");
    assert_eq!(buf[14], b'x');
}

#[test]
fn buffer_reuse_gives_each_text_alone() {
    let mut buffer = Buffer::new();
    assert_eq!(buffer.format(u128::MAX), "340282366920938463463374607431768211455");
    assert_eq!(buffer.format(5u8), "5");
    assert_eq!(buffer.format(-1i128), "-1");
    assert_eq!(buffer.format(1234u32), "1234");
}

#[test]
fn default_and_clone_format_like_new() {
    let mut a = Buffer::default();
    assert_eq!(a.format(1234), "1234");
    let mut b = a.clone();
    assert_eq!(b.format(-56i64), "-56");
    let mut c = a;
    assert_eq!(c.format(0u16), "0");
}

#[test]
fn pointer_sized_integers() {
    let mut buffer = Buffer::new();
    assert_eq!(buffer.format(usize::MAX), usize::MAX.to_string());
    assert_eq!(buffer.format(isize::MIN), isize::MIN.to_string());
    assert_eq!(buffer.format(0usize), "0");
    assert_eq!(buffer.format(-7isize), "-7");
    assert_eq!(usize::MAX_STR_LEN, usize::MAX.to_string().len());
    assert_eq!(isize::MAX_STR_LEN, isize::MIN.to_string().len());
    if usize::BITS == 64 {
        assert_eq!(usize::MAX_STR_LEN, 20);
        assert_eq!(isize::MAX_STR_LEN, 20);
    } else {
        assert_eq!(usize::MAX_STR_LEN, 10);
        assert_eq!(isize::MAX_STR_LEN, 11);
    }
}

#[test]
fn extreme_values_fill_max_str_len() {
    let mut buffer = Buffer::new();
    assert_eq!(buffer.format(u8::MAX).len(), u8::MAX_STR_LEN);
    assert_eq!(buffer.format(u16::MAX).len(), u16::MAX_STR_LEN);
    assert_eq!(buffer.format(u32::MAX).len(), u32::MAX_STR_LEN);
    assert_eq!(buffer.format(u64::MAX).len(), u64::MAX_STR_LEN);
    assert_eq!(buffer.format(u128::MAX).len(), u128::MAX_STR_LEN);
    assert_eq!(buffer.format(i8::MIN).len(), i8::MAX_STR_LEN);
    assert_eq!(buffer.format(i16::MIN).len(), i16::MAX_STR_LEN);
    assert_eq!(buffer.format(i32::MIN).len(), i32::MAX_STR_LEN);
    assert_eq!(buffer.format(i64::MIN).len(), i64::MAX_STR_LEN);
    assert_eq!(buffer.format(i128::MIN).len(), i128::MAX_STR_LEN);
    assert_eq!(buffer.format(usize::MAX).len(), usize::MAX_STR_LEN);
    assert_eq!(buffer.format(isize::MIN).len(), isize::MAX_STR_LEN);
}

#[test]
fn text_reads_back_as_the_value() {
    let mut buffer = Buffer::new();
    for value in [i64::MIN, -1_000_000, -10, -9, -1, 0, 1, 9, 10, 99, 100, 123_456_789, i64::MAX] {
        let text = buffer.format(value);
        assert_eq!(text.parse::<i64>().unwrap(), value);
        let digits = text.strip_prefix('-').unwrap_or(text);
        assert!(digits == "0" || !digits.starts_with('0'));
    }
}

#[test]
fn every_digit_count_of_each_width() {
    let mut buffer = Buffer::new();
    let mut power = 1u64;
    for _ in 0..19 {
        assert_eq!(buffer.format(power), power.to_string());
        assert_eq!(buffer.format(power - 1), (power - 1).to_string());
        assert_eq!(buffer.format(power as u128 * 3 + 1), (power as u128 * 3 + 1).to_string());
        assert_eq!(buffer.format((power - 1) as u32), ((power - 1) as u32).to_string());
        power *= 10;
    }
    assert_eq!(buffer.format(100_000_000_000_000_000_000_000_000_000_000u128), "100000000000000000000000000000000");
    assert_eq!(buffer.format(99_999_999_999_999_999_999_999_999_999_999u128), "99999999999999999999999999999999");
    assert_eq!(buffer.format(10_000_000_000_000_000u128), "10000000000000000");
    assert_eq!(buffer.format(1_000_000u128 * 100_000_000_000_000_000_000_000_000_000_000u128 + 7), "100000000000000000000000000000000000007");
}

#[test]
fn documented_examples() {
    let mut buffer = Buffer::new();
    let printed = buffer.format(128u64);
    assert_eq!(printed, "128");
    let mut buffer = Buffer::new();
    let printed = buffer.format(1234);
    assert_eq!(printed, "1234");
}
