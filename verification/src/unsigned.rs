//! Writing the digits of unsigned integers at the end of a buffer.
use vstd::prelude::*;
use vstd::std_specs::bits::{axiom_u32_leading_zeros, u32_leading_zeros, u64_leading_zeros};

use crate::bcd::{
    bcd4, be_bytes, lemma_bcd4_ascii, lemma_bcd4_digits, lemma_bcd4_leading_zeros,
    lemma_bcd8_digits, to_bcd4, write_be_u32,
};
use crate::decimal::{
    digit_byte, digits, lemma_digits_concat, lemma_digits_single, lemma_padded_len,
    lemma_padded_split, lemma_peel, lemma_pow10_values, lemma_splice_concat, lemma_splice_ranges,
    lemma_splice_subrange, lemma_splice_unchanged, lemma_unchanged_ends, lemma_unsigned_decimal_len,
    padded, pow10, splice, unchanged_outside, unsigned_decimal,
};
use crate::pairs::{divmod100, write_pair, write_quad};
use crate::wide::div_rem_1e16;
use crate::Integer;

verus! {

/// Formatting an unsigned integer into the last `MAX_STR_LEN` bytes of the
/// window `buf[base..base + MAX_STR_LEN]`.
pub trait Unsigned: Integer {
    /// Writes the text of `self` so that it ends at `base + MAX_STR_LEN`, and
    /// returns where it starts, relative to `base`.
    fn fmt(self, buf: &mut [u8; 40], base: usize) -> (offset: usize)
        requires
            base + Self::MAX_STR_LEN <= 40,
        ensures
            offset < Self::MAX_STR_LEN,
            final(buf)@.subrange(base + offset, base + Self::MAX_STR_LEN) == unsigned_decimal(
                self.as_int() as nat,
            ),
            final(buf)@.subrange(0, base as int) == old(buf)@.subrange(0, base as int),
            final(buf)@.subrange(base + Self::MAX_STR_LEN, 40) == old(buf)@.subrange(
                base + Self::MAX_STR_LEN,
                40,
            ),
    ;
}

/// Writing the last, single digit `d` at `at` in front of the text already in
/// `buf[at + 1..end]`.
proof fn lemma_write_digit(old: Seq<u8>, new: Seq<u8>, at: int, end: int, d: nat)
    requires
        0 <= at < end <= old.len(),
        1 <= d < 10,
        new == old.update(at, digit_byte(d)),
    ensures
        new.subrange(at, end) == digits(d) + old.subrange(at + 1, end),
        unchanged_outside(old, new, at, at + 1),
{
    lemma_digits_single(d);
    assert(new.subrange(at, end) =~= digits(d) + old.subrange(at + 1, end));
}

/// One step of the digit loops: writing the last `k` digits of `remain`
/// at `at` keeps `digits(remain) + buf[at + k..end]` equal to `text`.
proof fn lemma_write_group(
    old: Seq<u8>,
    new: Seq<u8>,
    at: int,
    end: int,
    remain: nat,
    k: nat,
    text: Seq<u8>,
)
    requires
        k >= 1,
        pow10((k - 1) as nat) <= remain,
        0 <= at,
        at + k <= end <= old.len(),
        digits(remain) + old.subrange(at + k, end) == text,
        new == splice(old, at, padded(remain % pow10(k), k)),
    ensures
        digits(remain / pow10(k)) + new.subrange(at, end) == text,
        unchanged_outside(old, new, at, at + k),
{
    lemma_peel(remain, k);
    lemma_padded_len(remain % pow10(k), k);
    lemma_splice_unchanged(old, new, at, padded(remain % pow10(k), k));
    lemma_splice_subrange(old, new, at, padded(remain % pow10(k), k), end);
    assert(digits(remain / pow10(k)) + new.subrange(at, end) =~= digits(remain) + old.subrange(
        at + k,
        end,
    ));
}

impl Unsigned for u8 {
    fn fmt(self, buf: &mut [u8; 40], base: usize) -> (offset: usize) {
        let ghost start = buf@;
        // The text is written backwards from the end of the window.
        let mut offset: usize = 3;
        if self == 0 {
            offset -= 1;
            buf[base + offset] = 48u8;
            assert(buf@.subrange(base + offset, base + 3) =~= unsigned_decimal(0));
            proof {
                lemma_unchanged_ends(start, buf@, base as int, base + 3);
            }
            return offset;
        }
        // Consume the least-significant decimals from a working copy.
        let mut remain = self;
        let ghost text = digits(self as nat);
        proof {
            lemma_pow10_values();
            lemma_unsigned_decimal_len(self as nat, 3);
            assert(digits(remain as nat) + buf@.subrange(base + 3, base + 3) =~= text);
        }
        // A u8 has at most three digits: the four-digit loop never runs.
        // Format per two digits from the lookup table.
        if remain > 9 {
            offset -= 2;
            let (last, pair) = divmod100(remain as u32);
            let ghost old_buf = buf@;
            write_pair(buf, base + offset, pair);
            proof {
                lemma_write_group(old_buf, buf@, base + offset, base + 3, remain as nat, 2, text);
            }
            remain = last as u8;
        }
        // Format the last remaining digit, if any.
        if remain != 0 || self == 0 {
            offset -= 1;
            let last = remain as u8 & 15;
            assert(remain as u8 & 15u8 == remain as u8) by (bit_vector)
                requires
                    remain < 10u8,
            ;
            let ghost old_buf = buf@;
            buf[base + offset] = 48u8 + last;
            proof {
                lemma_write_digit(old_buf, buf@, base + offset, base + 3, remain as nat);
                assert(digits(0) =~= Seq::<u8>::empty());
            }
        }
        proof {
            assert(digits(0) =~= Seq::<u8>::empty());
            assert(buf@.subrange(base + offset, base + 3) =~= text);
        }
        proof {
            lemma_unchanged_ends(start, buf@, base as int, base + 3);
        }
        offset
    }
}

/// Writing the ASCII BCD word of `x` at `at` puts the four-digit padding of
/// `x` there and leaves every range that does not overlap it as it was.
proof fn lemma_write_bcd4(old: Seq<u8>, new: Seq<u8>, at: int, x: nat)
    requires
        x < 10_000,
        0 <= at,
        at + 4 <= old.len(),
        new == splice(old, at, be_bytes((bcd4(x) as u32) | 0x30303030)),
    ensures
        new.len() == old.len(),
        new.subrange(at, at + 4) == padded(x, 4),
        forall|a: int, b: int|
            0 <= a <= b <= old.len() && (b <= at || at + 4 <= a) ==> #[trigger] new.subrange(a, b)
                == old.subrange(a, b),
        unchanged_outside(old, new, at, at + 4),
{
    lemma_bcd4_ascii(x);
    lemma_splice_unchanged(old, new, at, be_bytes((bcd4(x) as u32) | 0x30303030));
    lemma_splice_ranges(old, new, at, be_bytes((bcd4(x) as u32) | 0x30303030));
}

impl Unsigned for u16 {
    fn fmt(self, buf: &mut [u8; 40], base: usize) -> (offset: usize) {
        let ghost start = buf@;
        if self == 0 {
            buf[base + 4] = 48u8;
            assert(buf@.subrange(base + 4, base + 5) =~= unsigned_decimal(0));
            proof {
                lemma_unchanged_ends(start, buf@, base as int, base + 5);
            }
            return 4;
        }
        proof {
            lemma_pow10_values();
        }
        if self >= 10_000 {
            let high = self / 10_000;
            let bcd = to_bcd4(self % 10_000);
            buf[base + 0] = 48u8 + high as u8;
            let ghost old_buf = buf@;
            write_be_u32(buf, base + 1, bcd | 0x30303030);
            proof {
                lemma_write_bcd4(old_buf, buf@, base + 1, (self % 10_000) as nat);
                lemma_peel(self as nat, 4);
                lemma_digits_single(high as nat);
                assert(buf@.subrange(base as int, base + 1) == old_buf.subrange(base as int, base + 1));
                assert(buf@.subrange(base as int, base + 5) =~= buf@.subrange(base as int, base + 1)
                    + buf@.subrange(base + 1, base + 5));
                assert(buf@.subrange(base as int, base + 5) =~= unsigned_decimal(self as nat));
            }
            proof {
                lemma_unchanged_ends(start, buf@, base as int, base + 5);
            }
            return 0;
        }
        let bcd = to_bcd4(self);
        let leading_zeros = bcd.leading_zeros() as usize / 8;
        let ghost old_buf = buf@;
        write_be_u32(buf, base + 1, bcd | 0x30303030);
        proof {
            lemma_four_digits(old_buf, buf@, base + 1, self as nat);
        }
        proof {
            lemma_unchanged_ends(start, buf@, base as int, base + 5);
        }
        1 + leading_zeros
    }
}

/// The ASCII BCD word of `x` stored at `at`.
pub open spec fn wrote_bcd4(old: Seq<u8>, new: Seq<u8>, at: int, x: nat) -> bool {
    new == splice(old, at, be_bytes((bcd4(x) as u32) | 0x30303030))
}

/// The widest case of formatting a `u64`: twenty digit bytes written as five
/// BCD words at `b`, of which the text starts after the leading zeros of the
/// first.
proof fn lemma_u64_twenty_digits(
    b0: Seq<u8>,
    b1: Seq<u8>,
    b2: Seq<u8>,
    b3: Seq<u8>,
    b4: Seq<u8>,
    b5: Seq<u8>,
    b: int,
    n: nat,
)
    requires
        0 <= b,
        b + 20 <= b0.len(),
        10_000_000_000_000_000 <= n < 100_000_000_000_000_000_000,
        wrote_bcd4(b0, b1, b, n / 10_000_000_000_000_000),
        wrote_bcd4(b1, b2, b + 4, n % 10_000_000_000_000_000 / 100_000_000 / 10_000),
        wrote_bcd4(b2, b3, b + 8, n % 10_000_000_000_000_000 / 100_000_000 % 10_000),
        wrote_bcd4(b3, b4, b + 12, n % 100_000_000 / 10_000),
        wrote_bcd4(b4, b5, b + 16, n % 100_000_000 % 10_000),
    ensures
        ({
            let lz = u32_leading_zeros(bcd4(n / 10_000_000_000_000_000) as u32) / 8;
            lz <= 3 && b5.subrange(b + lz, b + 20) == unsigned_decimal(n)
        }),
        unchanged_outside(b0, b5, b, b + 20),
{
    lemma_pow10_values();
    let top = n / 10_000_000_000_000_000;
    let hi = n % 10_000_000_000_000_000 / 100_000_000;
    let lo = n % 100_000_000;
    let lz = u32_leading_zeros(bcd4(top) as u32) / 8;
    lemma_write_bcd4(b0, b1, b, top);
    lemma_write_bcd4(b1, b2, b + 4, hi / 10_000);
    lemma_write_bcd4(b2, b3, b + 8, hi % 10_000);
    lemma_write_bcd4(b3, b4, b + 12, lo / 10_000);
    lemma_write_bcd4(b4, b5, b + 16, lo % 10_000);
    let w0 = padded(top, 4);
    let w1 = padded(hi / 10_000, 4);
    let w2 = padded(hi % 10_000, 4);
    let w3 = padded(lo / 10_000, 4);
    let w4 = padded(lo % 10_000, 4);
    assert(b5.subrange(b, b + 4) == w0);
    assert(b5.subrange(b + 4, b + 8) == w1);
    assert(b5.subrange(b + 8, b + 12) == w2);
    assert(b5.subrange(b + 12, b + 16) == w3);
    assert(b5.subrange(b + 16, b + 20) == w4);
    // The text: the digits of `top`, then sixteen more.
    let low16 = n % 10_000_000_000_000_000;
    lemma_peel(n, 16);
    lemma_padded_split(low16, 8, 8);
    assert(low16 % 100_000_000 == lo) by {
        vstd::arithmetic::div_mod::lemma_mod_mod(n as int, 100_000_000, 100_000_000);
    }
    lemma_padded_split(hi, 4, 4);
    lemma_padded_split(lo, 4, 4);
    lemma_bcd4_digits(top);
    lemma_padded_len(top, 4);
    assert(b5.subrange(b + lz, b + 20) =~= w0.skip(lz as int) + (w1 + w2) + (w3 + w4));
    assert(b5.subrange(b + lz, b + 20) =~= unsigned_decimal(n));
}

/// Formatting a `u64` of nine to sixteen digits: sixteen digit bytes written
/// as four BCD words at `b + 4`, of which the text starts after the leading
/// zeros of the first two.
proof fn lemma_u64_sixteen_digits(
    b1: Seq<u8>,
    b2: Seq<u8>,
    b3: Seq<u8>,
    b4: Seq<u8>,
    b5: Seq<u8>,
    b: int,
    n: nat,
)
    requires
        0 <= b,
        b + 20 <= b1.len(),
        100_000_000 <= n < 10_000_000_000_000_000,
        wrote_bcd4(b1, b2, b + 4, n / 100_000_000 / 10_000),
        wrote_bcd4(b2, b3, b + 8, n / 100_000_000 % 10_000),
        wrote_bcd4(b3, b4, b + 12, n % 100_000_000 / 10_000),
        wrote_bcd4(b4, b5, b + 16, n % 100_000_000 % 10_000),
    ensures
        ({
            let hi = n / 100_000_000;
            let w = (((bcd4(hi / 10_000) as u32) as u64) << 32u64) | ((bcd4(hi % 10_000) as u32) as u64);
            let lz = u64_leading_zeros(w) / 8;
            lz <= 7 && b5.subrange(b + 4 + lz, b + 20) == unsigned_decimal(n)
        }),
        unchanged_outside(b1, b5, b + 4, b + 20),
{
    lemma_pow10_values();
    let hi = n / 100_000_000;
    let lo = n % 100_000_000;
    let w = (((bcd4(hi / 10_000) as u32) as u64) << 32u64) | ((bcd4(hi % 10_000) as u32) as u64);
    let lz = u64_leading_zeros(w) / 8;
    lemma_write_bcd4(b1, b2, b + 4, hi / 10_000);
    lemma_write_bcd4(b2, b3, b + 8, hi % 10_000);
    lemma_write_bcd4(b3, b4, b + 12, lo / 10_000);
    lemma_write_bcd4(b4, b5, b + 16, lo % 10_000);
    let w1 = padded(hi / 10_000, 4);
    let w2 = padded(hi % 10_000, 4);
    let w3 = padded(lo / 10_000, 4);
    let w4 = padded(lo % 10_000, 4);
    assert(b5.subrange(b + 4, b + 8) == w1);
    assert(b5.subrange(b + 8, b + 12) == w2);
    assert(b5.subrange(b + 12, b + 16) == w3);
    assert(b5.subrange(b + 16, b + 20) == w4);
    lemma_peel(n, 8);
    lemma_padded_split(lo, 4, 4);
    lemma_bcd8_digits(hi);
    lemma_padded_len(hi / 10_000, 4);
    lemma_padded_len(hi % 10_000, 4);
    assert(b5.subrange(b + 4 + lz, b + 20) =~= (w1 + w2).skip(lz as int) + (w3 + w4));
    assert(b5.subrange(b + 4 + lz, b + 20) =~= unsigned_decimal(n));
}

/// Formatting a number of five to eight digits: eight digit bytes written as
/// two BCD words at `at`, of which the text starts after the leading zeros of
/// the first.
proof fn lemma_eight_digits(b3: Seq<u8>, b4: Seq<u8>, b5: Seq<u8>, at: int, n: nat)
    requires
        0 <= at,
        at + 8 <= b3.len(),
        10_000 <= n < 100_000_000,
        wrote_bcd4(b3, b4, at, n / 10_000),
        wrote_bcd4(b4, b5, at + 4, n % 10_000),
    ensures
        ({
            let lz = u32_leading_zeros(bcd4(n / 10_000) as u32) / 8;
            lz <= 3 && b5.subrange(at + lz, at + 8) == unsigned_decimal(n)
        }),
        unchanged_outside(b3, b5, at, at + 8),
{
    lemma_pow10_values();
    let lz = u32_leading_zeros(bcd4(n / 10_000) as u32) / 8;
    lemma_write_bcd4(b3, b4, at, n / 10_000);
    lemma_write_bcd4(b4, b5, at + 4, n % 10_000);
    let w3 = padded(n / 10_000, 4);
    let w4 = padded(n % 10_000, 4);
    assert(b5.subrange(at, at + 4) == w3);
    assert(b5.subrange(at + 4, at + 8) == w4);
    lemma_peel(n, 4);
    lemma_bcd4_digits(n / 10_000);
    lemma_padded_len(n / 10_000, 4);
    assert(b5.subrange(at + lz, at + 8) =~= w3.skip(lz as int) + w4);
    assert(b5.subrange(at + lz, at + 8) =~= unsigned_decimal(n));
}

/// Formatting a number of one to four digits: its BCD word written at `at`,
/// the text starting after its leading zeros.
proof fn lemma_four_digits(b4: Seq<u8>, b5: Seq<u8>, at: int, n: nat)
    requires
        0 <= at,
        at + 4 <= b4.len(),
        1 <= n < 10_000,
        wrote_bcd4(b4, b5, at, n),
    ensures
        ({
            let lz = u32_leading_zeros(bcd4(n) as u32) / 8;
            lz <= 3 && b5.subrange(at + lz, at + 4) == unsigned_decimal(n)
        }),
        unchanged_outside(b4, b5, at, at + 4),
{
    let lz = u32_leading_zeros(bcd4(n) as u32) / 8;
    lemma_write_bcd4(b4, b5, at, n);
    lemma_bcd4_digits(n);
    assert(b5.subrange(at + lz, at + 4) =~= padded(n, 4).skip(lz as int));
}

/// Encodes the 16 least-significant decimals of `n` into
/// `buf[base + OFFSET..base + OFFSET + 16]`, as four BCD words.
pub fn enc_16lsd<const OFFSET: usize>(buf: &mut [u8; 40], base: usize, n: u64)
    requires
        n < 10_000_000_000_000_000,
        base + OFFSET + 16 <= 40,
    ensures
        final(buf)@ == splice(old(buf)@, base + OFFSET, padded(n as nat, 16)),
{
    let hi = (n / 100_000_000) as u32;
    let lo = (n % 100_000_000) as u32;
    let out = base + OFFSET;
    let bcd_hi_hi = to_bcd4((hi / 10_000) as u16);
    let bcd_hi_lo = to_bcd4((hi % 10_000) as u16);
    let bcd_lo_hi = to_bcd4((lo / 10_000) as u16);
    let bcd_lo_lo = to_bcd4((lo % 10_000) as u16);
    let ghost b1 = buf@;
    write_be_u32(buf, out, bcd_hi_hi | 0x30303030);
    let ghost b2 = buf@;
    write_be_u32(buf, out + 4, bcd_hi_lo | 0x30303030);
    let ghost b3 = buf@;
    write_be_u32(buf, out + 8, bcd_lo_hi | 0x30303030);
    let ghost b4 = buf@;
    write_be_u32(buf, out + 12, bcd_lo_lo | 0x30303030);
    proof {
        lemma_sixteen_digits(b1, b2, b3, b4, buf@, out as int, n as nat);
    }
}

/// Four BCD words side by side hold the sixteen-digit padding of `n`.
proof fn lemma_sixteen_digits(
    b1: Seq<u8>,
    b2: Seq<u8>,
    b3: Seq<u8>,
    b4: Seq<u8>,
    b5: Seq<u8>,
    at: int,
    n: nat,
)
    requires
        0 <= at,
        at + 16 <= b1.len(),
        n < 10_000_000_000_000_000,
        wrote_bcd4(b1, b2, at, n / 100_000_000 / 10_000),
        wrote_bcd4(b2, b3, at + 4, n / 100_000_000 % 10_000),
        wrote_bcd4(b3, b4, at + 8, n % 100_000_000 / 10_000),
        wrote_bcd4(b4, b5, at + 12, n % 100_000_000 % 10_000),
    ensures
        b5 == splice(b1, at, padded(n, 16)),
{
    lemma_pow10_values();
    let hi = n / 100_000_000;
    let lo = n % 100_000_000;
    let w1 = padded(hi / 10_000, 4);
    let w2 = padded(hi % 10_000, 4);
    let w3 = padded(lo / 10_000, 4);
    let w4 = padded(lo % 10_000, 4);
    lemma_bcd4_ascii(hi / 10_000);
    lemma_bcd4_ascii(hi % 10_000);
    lemma_bcd4_ascii(lo / 10_000);
    lemma_bcd4_ascii(lo % 10_000);
    lemma_padded_len(hi / 10_000, 4);
    lemma_padded_len(hi % 10_000, 4);
    lemma_padded_len(lo / 10_000, 4);
    lemma_splice_concat(b1, b2, b3, at, w1, w2);
    lemma_splice_concat(b1, b3, b4, at, w1 + w2, w3);
    lemma_splice_concat(b1, b4, b5, at, w1 + w2 + w3, w4);
    lemma_padded_split(n, 8, 8);
    lemma_padded_split(hi, 4, 4);
    lemma_padded_split(lo, 4, 4);
    assert(w1 + w2 + w3 + w4 =~= (w1 + w2) + (w3 + w4));
}

/// Encodes the (at most seven) most significant decimals of a number into
/// `buf[base..base + 7]`, and returns where its text starts, relative to
/// `base`: 7, an empty text, for zero.
pub fn enc_7msd(buf: &mut [u8; 40], base: usize, n: u32) -> (offset: usize)
    requires
        n < 10_000_000,
        base + 7 <= 40,
    ensures
        offset <= 7,
        offset == 7 <==> n == 0,
        final(buf)@.subrange(base + offset, base + 7) == digits(n as nat),
        unchanged_outside(old(buf)@, final(buf)@, base as int, base + 7),
        final(buf)@.subrange(0, base as int) == old(buf)@.subrange(0, base as int),
        final(buf)@.subrange(base + 7, 40) == old(buf)@.subrange(base + 7, 40),
{
    let ghost start = buf@;
    if n < 10_000 {
        let bcd = to_bcd4(n as u16);
        let leading_zeros = bcd.leading_zeros() as usize / 8;
        let ghost b4 = buf@;
        write_be_u32(buf, base + 3, bcd | 0x30303030);
        proof {
            lemma_write_bcd4(b4, buf@, base + 3, n as nat);
            if n == 0 {
                axiom_u32_leading_zeros(bcd);
                assert(digits(0) =~= Seq::<u8>::empty());
                assert(buf@.subrange(base + 7, base + 7) =~= digits(0));
            } else {
                lemma_four_digits(b4, buf@, base + 3, n as nat);
            }
            lemma_unchanged_ends(start, buf@, base as int, base + 7);
        }
        3 + leading_zeros
    } else {
        let bcd_hi = to_bcd4((n / 10_000) as u16);
        let bcd_lo = to_bcd4((n % 10_000) as u16);
        let leading_zeros = bcd_hi.leading_zeros() as usize / 8;
        // The last three of the four big-endian bytes of the high word: its
        // first byte is a leading zero.
        let hi = bcd_hi | 0x30303030;
        buf[base + 0] = (hi >> 16) as u8;
        buf[base + 1] = (hi >> 8) as u8;
        buf[base + 2] = hi as u8;
        let ghost b4 = buf@;
        write_be_u32(buf, base + 3, bcd_lo | 0x30303030);
        proof {
            lemma_seven_digits(start, b4, buf@, base as int, n as nat);
            lemma_unchanged_ends(start, buf@, base as int, base + 7);
        }
        leading_zeros - 1
    }
}

/// The wide case of `enc_7msd`: the last three digits of the high word and
/// the four of the low word, read after the leading zeros of the high word.
proof fn lemma_seven_digits(b0: Seq<u8>, b4: Seq<u8>, b5: Seq<u8>, at: int, n: nat)
    requires
        0 <= at,
        at + 7 <= b0.len(),
        10_000 <= n < 10_000_000,
        b4 == b0.update(at, (((bcd4(n / 10_000) as u32) | 0x30303030) >> 16u32) as u8).update(
            at + 1,
            (((bcd4(n / 10_000) as u32) | 0x30303030) >> 8u32) as u8,
        ).update(at + 2, ((bcd4(n / 10_000) as u32) | 0x30303030) as u8),
        wrote_bcd4(b4, b5, at + 3, n % 10_000),
    ensures
        ({
            let lz = u32_leading_zeros(bcd4(n / 10_000) as u32) / 8;
            1 <= lz <= 3 && b5.subrange(at + lz - 1, at + 7) == digits(n)
        }),
        unchanged_outside(b0, b5, at, at + 7),
{
    lemma_pow10_values();
    let h = n / 10_000;
    let l = n % 10_000;
    let lz = u32_leading_zeros(bcd4(h) as u32) / 8;
    lemma_bcd4_ascii(h);
    lemma_bcd4_digits(h);
    lemma_bcd4_leading_zeros(h);
    lemma_write_bcd4(b4, b5, at + 3, l);
    let wh = padded(h, 4);
    assert(wh == be_bytes((bcd4(h) as u32) | 0x30303030));
    assert(b5.subrange(at, at + 3) == b4.subrange(at, at + 3));
    assert(b4.subrange(at, at + 3) =~= wh.skip(1));
    lemma_peel(n, 4);
    assert(b5.subrange(at + lz - 1, at + 7) =~= wh.skip(lz as int) + padded(l, 4));
}

impl Unsigned for u64 {
    fn fmt(self, buf: &mut [u8; 40], base: usize) -> (offset: usize) {
        let ghost start = buf@;
        if self == 0 {
            buf[base + 19] = 48u8;
            assert(buf@.subrange(base + 19, base + 20) =~= unsigned_decimal(0));
            proof {
                lemma_unchanged_ends(start, buf@, base as int, base + 20);
            }
            return 19;
        }
        // The output is written as five 4-byte words at `base + 4 * k`.
        if self >= 10_000_000_000_000_000 {
            let top = self / 10_000_000_000_000_000;
            let hi = (self % 10_000_000_000_000_000 / 100_000_000) as u32;
            let lo = (self % 100_000_000) as u32;
            let bcd_top = to_bcd4(top as u16);
            let bcd_hi_hi = to_bcd4((hi / 10_000) as u16);
            let bcd_hi_lo = to_bcd4((hi % 10_000) as u16);
            let bcd_lo_hi = to_bcd4((lo / 10_000) as u16);
            let bcd_lo_lo = to_bcd4((lo % 10_000) as u16);
            let leading_zeros = bcd_top.leading_zeros() as usize / 8;
            let ghost b0 = buf@;
            write_be_u32(buf, base + 0, bcd_top | 0x30303030);
            let ghost b1 = buf@;
            write_be_u32(buf, base + 4, bcd_hi_hi | 0x30303030);
            let ghost b2 = buf@;
            write_be_u32(buf, base + 8, bcd_hi_lo | 0x30303030);
            let ghost b3 = buf@;
            write_be_u32(buf, base + 12, bcd_lo_hi | 0x30303030);
            let ghost b4 = buf@;
            write_be_u32(buf, base + 16, bcd_lo_lo | 0x30303030);
            proof {
                lemma_u64_twenty_digits(b0, b1, b2, b3, b4, buf@, base as int, self as nat);
            }
            proof {
                lemma_unchanged_ends(start, buf@, base as int, base + 20);
            }
            return leading_zeros;
        }
        if self >= 100_000_000 {
            let hi = (self / 100_000_000) as u32;
            let lo = (self % 100_000_000) as u32;
            let bcd_hi_hi = to_bcd4((hi / 10_000) as u16);
            let bcd_hi_lo = to_bcd4((hi % 10_000) as u16);
            let bcd_lo_hi = to_bcd4((lo / 10_000) as u16);
            let bcd_lo_lo = to_bcd4((lo % 10_000) as u16);
            let leading_zeros = ((bcd_hi_hi as u64) << 32 | bcd_hi_lo as u64).leading_zeros() as usize
                / 8;
            let ghost b1 = buf@;
            write_be_u32(buf, base + 4, bcd_hi_hi | 0x30303030);
            let ghost b2 = buf@;
            write_be_u32(buf, base + 8, bcd_hi_lo | 0x30303030);
            let ghost b3 = buf@;
            write_be_u32(buf, base + 12, bcd_lo_hi | 0x30303030);
            let ghost b4 = buf@;
            write_be_u32(buf, base + 16, bcd_lo_lo | 0x30303030);
            proof {
                lemma_u64_sixteen_digits(b1, b2, b3, b4, buf@, base as int, self as nat);
            }
            proof {
                lemma_unchanged_ends(start, buf@, base as int, base + 20);
            }
            return 4 + leading_zeros;
        }
        if self >= 10_000 {
            let bcd_hi = to_bcd4((self / 10_000) as u16);
            let bcd_lo = to_bcd4((self % 10_000) as u16);
            let leading_zeros = bcd_hi.leading_zeros() as usize / 8;
            let ghost b3 = buf@;
            write_be_u32(buf, base + 12, bcd_hi | 0x30303030);
            let ghost b4 = buf@;
            write_be_u32(buf, base + 16, bcd_lo | 0x30303030);
            proof {
                lemma_eight_digits(b3, b4, buf@, base + 12, self as nat);
            }
            proof {
                lemma_unchanged_ends(start, buf@, base as int, base + 20);
            }
            return 12 + leading_zeros;
        }
        let bcd = to_bcd4(self as u16);
        let leading_zeros = bcd.leading_zeros() as usize / 8;
        let ghost b4 = buf@;
        write_be_u32(buf, base + 16, bcd | 0x30303030);
        proof {
            lemma_four_digits(b4, buf@, base + 16, self as nat);
        }
        proof {
            lemma_unchanged_ends(start, buf@, base as int, base + 20);
        }
        16 + leading_zeros
    }
}

impl Unsigned for u32 {
    fn fmt(self, buf: &mut [u8; 40], base: usize) -> (offset: usize) {
        let ghost start = buf@;
        // The text is written backwards from the end of the window.
        let mut offset: usize = 10;
        if self == 0 {
            offset -= 1;
            buf[base + offset] = 48u8;
            assert(buf@.subrange(base + offset, base + 10) =~= unsigned_decimal(0));
            proof {
                lemma_unchanged_ends(start, buf@, base as int, base + 10);
            }
            return offset;
        }
        // Consume the least-significant decimals from a working copy.
        let mut remain = self;
        let ghost text = digits(self as nat);
        proof {
            lemma_pow10_values();
            lemma_unsigned_decimal_len(self as nat, 10);
            assert(digits(remain as nat) + buf@.subrange(base + 10, base + 10) =~= text);
        }
        // Format per four digits from the lookup table.
        while remain > 999
            invariant
                base + 10 <= 40,
                offset <= 10,
                digits(remain as nat).len() <= offset,
                digits(remain as nat) + buf@.subrange(base + offset, base + 10) == text,
                unchanged_outside(start, buf@, base as int, base + 10),
                pow10(3) == 1000,
                pow10(4) == 10_000,
            decreases remain,
        {
            proof {
                lemma_unsigned_decimal_len(remain as nat, 4);
            }
            offset -= 4;
            // pull two pairs
            let quad = remain % 1_00_00;
            let ghost old_buf = buf@;
            let ghost old_remain = remain;
            remain /= 1_00_00;
            write_quad(buf, base + offset, quad as u32);
            proof {
                lemma_write_group(old_buf, buf@, base + offset, base + 10, old_remain as nat, 4, text);
                lemma_peel(old_remain as nat, 4);
                lemma_padded_len((old_remain % 10000) as nat, 4);
            }
        }
        // Format per two digits from the lookup table.
        if remain > 9 {
            proof {
                lemma_unsigned_decimal_len(remain as nat, 2);
            }
            offset -= 2;
            let (last, pair) = divmod100(remain as u32);
            let ghost old_buf = buf@;
            write_pair(buf, base + offset, pair);
            proof {
                lemma_write_group(old_buf, buf@, base + offset, base + 10, remain as nat, 2, text);
                lemma_peel(remain as nat, 2);
                lemma_padded_len((remain % 100) as nat, 2);
            }
            remain = last as u32;
        }
        // Format the last remaining digit, if any.
        if remain != 0 || self == 0 {
            proof {
                lemma_unsigned_decimal_len(remain as nat, 1);
            }
            offset -= 1;
            let last = remain as u8 & 15;
            assert(remain as u8 & 15u8 == remain as u8) by (bit_vector)
                requires
                    remain < 10u32,
            ;
            let ghost old_buf = buf@;
            buf[base + offset] = 48u8 + last;
            proof {
                lemma_write_digit(old_buf, buf@, base + offset, base + 10, remain as nat);
                assert(digits(0) =~= Seq::<u8>::empty());
            }
        }
        proof {
            assert(digits(0) =~= Seq::<u8>::empty());
            assert(buf@.subrange(base + offset, base + 10) =~= text);
        }
        proof {
            lemma_unchanged_ends(start, buf@, base as int, base + 10);
        }
        offset
    }
}

/// The text of a `u128` split at 10^16 and at 10^32: what `enc_7msd` wrote,
/// then the two sixteen-digit groups.
proof fn lemma_u128_three_groups(n: nat, q1: nat, r1: nat, q2: nat, r2: nat)
    requires
        n == q1 * pow10(16) + r1,
        r1 < pow10(16),
        q1 == q2 * pow10(16) + r2,
        r2 < pow10(16),
        q2 >= 1,
    ensures
        digits(n) == digits(q2) + padded(r2, 16) + padded(r1, 16),
{
    lemma_pow10_values();
    lemma_digits_concat(q2, r2, 16);
    lemma_digits_concat(q1, r1, 16);
}

/// The widest case of formatting a `u128`: `enc_16lsd` wrote the lowest
/// sixteen digits at `b + 23`, then the next sixteen at `b + 7`, and
/// `enc_7msd` the rest in front of them.
proof fn lemma_u128_wide(
    b0: Seq<u8>,
    b1: Seq<u8>,
    b2: Seq<u8>,
    b3: Seq<u8>,
    b: int,
    n: nat,
    q1: nat,
    r1: nat,
    q2: nat,
    r2: nat,
    offset: int,
)
    requires
        0 <= b,
        b + 39 <= b0.len(),
        n == q1 * pow10(16) + r1,
        r1 < pow10(16),
        q1 == q2 * pow10(16) + r2,
        r2 < pow10(16),
        q2 >= 1,
        b1 == splice(b0, b + 23, padded(r1, 16)),
        b2 == splice(b1, b + 7, padded(r2, 16)),
        0 <= offset <= 7,
        b3.subrange(b + offset, b + 7) == digits(q2),
        unchanged_outside(b2, b3, b, b + 7),
    ensures
        b3.subrange(b + offset, b + 39) == unsigned_decimal(n),
        unchanged_outside(b0, b3, b, b + 39),
{
    lemma_padded_len(r1, 16);
    lemma_padded_len(r2, 16);
    lemma_splice_ranges(b0, b1, b + 23, padded(r1, 16));
    lemma_splice_ranges(b1, b2, b + 7, padded(r2, 16));
    lemma_splice_unchanged(b0, b1, b + 23, padded(r1, 16));
    lemma_splice_unchanged(b1, b2, b + 7, padded(r2, 16));
    lemma_u128_three_groups(n, q1, r1, q2, r2);
    lemma_pow10_values();
    assert(n > 0) by (nonlinear_arith)
        requires
            n == q1 * pow10(16) + r1,
            q1 == q2 * pow10(16) + r2,
            q2 >= 1,
            pow10(16) >= 1,
    ;
    assert(b3.subrange(b + 7, b + 39) =~= b2.subrange(b + 7, b + 39));
    assert(b2.subrange(b + 7, b + 39) =~= padded(r2, 16) + b1.subrange(b + 23, b + 39));
    assert(b3.subrange(b + offset, b + 39) =~= b3.subrange(b + offset, b + 7) + b3.subrange(
        b + 7,
        b + 39,
    ));
    assert(b3.subrange(b + offset, b + 39) =~= digits(q2) + padded(r2, 16) + padded(r1, 16));
}

impl Unsigned for u128 {
    fn fmt(self, buf: &mut [u8; 40], base: usize) -> (offset: usize) {
        let ghost start = buf@;
        // Optimize common-case zero, which would also need special treatment due to
        // its "leading" zero.
        if self == 0 {
            let offset = 39 - 1;
            buf[base + offset] = 48u8;
            assert(buf@.subrange(base + offset, base + 39) =~= unsigned_decimal(0));
            proof {
                lemma_unchanged_ends(start, buf@, base as int, base + 39);
            }
            return offset;
        }
        let ghost text = digits(self as nat);
        proof {
            lemma_pow10_values();
        }
        // Take the 16 least-significant decimals.
        let (quot_1e16, mod_1e16) = div_rem_1e16(self);
        let (mut remain, mut offset) = if quot_1e16 == 0 {
            proof {
                assert(digits(mod_1e16 as nat) + buf@.subrange(base + 39, base + 39) =~= text);
            }
            (mod_1e16, 39)
        } else {
            // Write digits at buf[23..39].
            let ghost b23 = buf@;
            enc_16lsd::<23>(buf, base, mod_1e16);
            // Take another 16 decimals.
            let (quot2, mod2) = div_rem_1e16(quot_1e16);
            if quot2 == 0 {
                proof {
                    lemma_padded_len(mod_1e16 as nat, 16);
                    lemma_splice_ranges(
                        b23,
                        buf@,
                        base + 23,
                        padded(mod_1e16 as nat, 16),
                    );
                    lemma_splice_unchanged(b23, buf@, base + 23, padded(mod_1e16 as nat, 16));
                    lemma_digits_concat(quot_1e16 as nat, mod_1e16 as nat, 16);
                    assert(digits(mod2 as nat) + buf@.subrange(base + 23, base + 39) == text);
                }
                (mod2, 23)
            } else {
                // Write digits at buf[7..23].
                let ghost before = buf@;
                enc_16lsd::<7>(buf, base, mod2);
                let ghost after = buf@;
                // Quot2 has at most 7 decimals remaining after two 1e16 divisions.
                let offset = enc_7msd(buf, base, quot2 as u32);
                proof {
                    lemma_u128_wide(
                        b23,
                        before,
                        after,
                        buf@,
                        base as int,
                        self as nat,
                        quot_1e16 as nat,
                        mod_1e16 as nat,
                        quot2 as nat,
                        mod2 as nat,
                        offset as int,
                    );
                    lemma_unchanged_ends(start, buf@, base as int, base + 39);
                }
                return offset;
            }
        };
        proof {
            lemma_unsigned_decimal_len(remain as nat, 16);
        }
        // Format per four digits from the lookup table.
        while remain > 999
            invariant
                base + 39 <= 40,
                offset <= 39,
                digits(remain as nat).len() <= offset,
                digits(remain as nat) + buf@.subrange(base + offset, base + 39) == text,
                unchanged_outside(start, buf@, base as int, base + 39),
                pow10(3) == 1000,
                pow10(4) == 10_000,
            decreases remain,
        {
            proof {
                lemma_unsigned_decimal_len(remain as nat, 4);
            }
            offset -= 4;
            // pull two pairs
            let quad = remain % 1_00_00;
            let ghost old_buf = buf@;
            let ghost old_remain = remain;
            remain /= 1_00_00;
            write_quad(buf, base + offset, quad as u32);
            proof {
                lemma_write_group(old_buf, buf@, base + offset, base + 39, old_remain as nat, 4, text);
                lemma_peel(old_remain as nat, 4);
                lemma_padded_len((old_remain % 10000) as nat, 4);
            }
        }
        // Format per two digits from the lookup table.
        if remain > 9 {
            proof {
                lemma_unsigned_decimal_len(remain as nat, 2);
            }
            offset -= 2;
            let (last, pair) = divmod100(remain as u32);
            let ghost old_buf = buf@;
            write_pair(buf, base + offset, pair);
            proof {
                lemma_write_group(old_buf, buf@, base + offset, base + 39, remain as nat, 2, text);
                lemma_peel(remain as nat, 2);
                lemma_padded_len((remain % 100) as nat, 2);
            }
            remain = last as u64;
        }
        // Format the last remaining digit, if any.
        if remain != 0 {
            proof {
                lemma_unsigned_decimal_len(remain as nat, 1);
            }
            offset -= 1;
            let last = remain as u8 & 15;
            assert(remain as u8 & 15u8 == remain as u8) by (bit_vector)
                requires
                    remain < 10u64,
            ;
            let ghost old_buf = buf@;
            buf[base + offset] = 48u8 + last;
            proof {
                lemma_write_digit(old_buf, buf@, base + offset, base + 39, remain as nat);
                assert(digits(0) =~= Seq::<u8>::empty());
            }
        }
        proof {
            assert(digits(0) =~= Seq::<u8>::empty());
            assert(buf@.subrange(base + offset, base + 39) =~= text);
        }
        proof {
            lemma_unchanged_ends(start, buf@, base as int, base + 39);
        }
        offset
    }
}

} // verus!
