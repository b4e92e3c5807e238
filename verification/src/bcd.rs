//! Four decimal digits at once: binary-coded decimal words whose bytes are
//! digits, turned into ASCII by or-ing in `'0'` and stored most significant
//! byte first.
use vstd::prelude::*;
use vstd::std_specs::bits::{
    axiom_u32_leading_zeros, axiom_u64_leading_zeros, u32_leading_zeros, u64_leading_zeros,
};

use crate::decimal::{
    lemma_digits_skip, lemma_padded_len, lemma_padded_split, lemma_pow10_values, padded, splice,
};

verus! {

/// The BCD word of a number below 10_000: its thousands, hundreds, tens and
/// units digits in the four bytes of a `u32`, most significant first.
pub open spec fn bcd4(x: nat) -> nat {
    (x / 1000) * 0x1000000 + ((x / 100) % 10) * 0x10000 + ((x / 10) % 10) * 0x100 + x % 10
}

/// The four bytes of `v`, most significant first: what storing `v.to_be()`
/// lays out in memory.
pub open spec fn be_bytes(v: u32) -> Seq<u8> {
    seq![(v >> 24u32) as u8, (v >> 16u32) as u8, (v >> 8u32) as u8, v as u8]
}

/// Converts a number below 10_000 to its BCD word: one decimal digit per byte,
/// the thousands in the most significant byte.
pub fn to_bcd4(abcd: u16) -> (r: u32)
    requires
        abcd < 10_000,
    ensures
        r == bcd4(abcd as nat),
{
    let abcd = abcd as u32;
    let scaled: u32 = abcd * 0x147b;
    let hundreds: u32 = scaled >> 19;
    assert(hundreds == abcd / 100 && hundreds < 100) by (bit_vector)
        requires
            abcd < 10_000u32,
            scaled == abcd * 0x147bu32,
            hundreds == scaled >> 19u32,
    ;
    let ghost h: u32 = abcd / 100;
    let ghost l: u32 = abcd % 100;
    assert((0x10000 - 100) * hundreds + abcd == h * 0x10000 + l && h < 100 && l < 100) by (
    nonlinear_arith)
        requires
            hundreds == h,
            h == abcd / 100,
            l == abcd % 100,
            abcd < 10_000,
    ;
    let ab_cd = abcd + (0x10000 - 100) * hundreds;
    let scaled_pairs: u32 = ab_cd * 0x67;
    let tens: u32 = (scaled_pairs >> 10) & 0xf000f;
    assert(tens == (h / 10) * 0x10000 + l / 10) by (bit_vector)
        requires
            h < 100u32,
            l < 100u32,
            ab_cd == h * 0x10000u32 + l,
            scaled_pairs == ab_cd * 0x67u32,
            tens == (scaled_pairs >> 10u32) & 0xf000fu32,
    ;
    assert(ab_cd + (0x100 - 10) * tens == bcd4(abcd as nat)) by (nonlinear_arith)
        requires
            h == abcd / 100,
            l == abcd % 100,
            abcd < 10_000,
            ab_cd == h * 0x10000 + l,
            tens == (h / 10) * 0x10000 + l / 10,
    ;
    ab_cd + (0x100 - 10) * tens
}

/// Stores the bytes of `v` at `buf[offset..offset + 4]`, most significant
/// byte first.
pub fn write_be_u32(buf: &mut [u8; 40], offset: usize, v: u32)
    requires
        offset + 4 <= 40,
    ensures
        final(buf)@ == splice(old(buf)@, offset as int, be_bytes(v)),
{
    buf[offset] = (v >> 24) as u8;
    buf[offset + 1] = (v >> 16) as u8;
    buf[offset + 2] = (v >> 8) as u8;
    buf[offset + 3] = v as u8;
    assert(final(buf)@ =~= splice(old(buf)@, offset as int, be_bytes(v)));
}

/// The digit bytes of a BCD word in ASCII are the four-digit padding of its
/// number.
pub proof fn lemma_bcd4_ascii(x: nat)
    requires
        x < 10_000,
    ensures
        bcd4(x) < 0x1_0000_0000,
        be_bytes((bcd4(x) as u32) | 0x30303030) == padded(x, 4),
{
    let d3: u32 = (x / 1000) as u32;
    let d2: u32 = ((x / 100) % 10) as u32;
    let d1: u32 = ((x / 10) % 10) as u32;
    let d0: u32 = (x % 10) as u32;
    let b: u32 = bcd4(x) as u32;
    let v: u32 = b | 0x30303030;
    assert(b == d3 * 0x1000000 + d2 * 0x10000 + d1 * 0x100 + d0);
    assert((v >> 24u32) as u8 == 48 + d3 && (v >> 16u32) as u8 == 48 + d2 && (v >> 8u32) as u8
        == 48 + d1 && v as u8 == 48 + d0) by (bit_vector)
        requires
            d3 < 10u32,
            d2 < 10u32,
            d1 < 10u32,
            d0 < 10u32,
            b == d3 * 0x1000000u32 + d2 * 0x10000u32 + d1 * 0x100u32 + d0,
            v == b | 0x30303030u32,
    ;
    reveal_with_fuel(padded, 5);
    assert(x / 10 / 10 == x / 100 && x / 100 / 10 == x / 1000 && (x / 1000) % 10 == x / 1000);
    assert(be_bytes(v) =~= padded(x, 4));
}

/// The number of leading zero bytes of a BCD word is the number of leading
/// zero digits of its four-digit padding.
pub proof fn lemma_bcd4_leading_zeros(x: nat)
    requires
        1 <= x < 10_000,
    ensures
        bcd4(x) < 0x1_0000_0000,
        x >= 1000 ==> u32_leading_zeros(bcd4(x) as u32) / 8 == 0,
        100 <= x < 1000 ==> u32_leading_zeros(bcd4(x) as u32) / 8 == 1,
        10 <= x < 100 ==> u32_leading_zeros(bcd4(x) as u32) / 8 == 2,
        x < 10 ==> u32_leading_zeros(bcd4(x) as u32) / 8 == 3,
{
    let d3: u32 = (x / 1000) as u32;
    let d2: u32 = ((x / 100) % 10) as u32;
    let d1: u32 = ((x / 10) % 10) as u32;
    let d0: u32 = (x % 10) as u32;
    let b: u32 = bcd4(x) as u32;
    let lz: u32 = u32_leading_zeros(b);
    axiom_u32_leading_zeros(b);
    assert(b == d3 * 0x1000000 + d2 * 0x10000 + d1 * 0x100 + d0);
    assert(b != 0);
    let s1: u32 = (31 - lz) as u32;
    let s2: u32 = (32 - lz) as u32;
    assert(lz < 32 ==> (b >> s1) & 1u32 != 0u32);
    assert(b >> s2 == 0u32);
    assert({
        &&& d3 != 0 ==> lz / 8 == 0
        &&& d3 == 0 && d2 != 0 ==> lz / 8 == 1
        &&& d3 == 0 && d2 == 0 && d1 != 0 ==> lz / 8 == 2
        &&& d3 == 0 && d2 == 0 && d1 == 0 ==> lz / 8 == 3
    }) by (bit_vector)
        requires
            d3 < 10u32,
            d2 < 10u32,
            d1 < 10u32,
            d0 < 10u32,
            b == d3 * 0x1000000u32 + d2 * 0x10000u32 + d1 * 0x100u32 + d0,
            b != 0u32,
            lz <= 32u32,
            lz < 32u32 ==> s1 + lz == 31u32,
            s2 + lz == 32u32,
            lz < 32u32 ==> (b >> s1) & 1u32 != 0u32,
            b >> s2 == 0u32,
    ;
}

/// The text of a number below 10_000 is its ASCII BCD word after the leading
/// zero bytes that `leading_zeros` counts.
pub proof fn lemma_bcd4_digits(x: nat)
    requires
        1 <= x < 10_000,
    ensures
        u32_leading_zeros(bcd4(x) as u32) / 8 <= 3,
        crate::decimal::digits(x) == padded(x, 4).skip((u32_leading_zeros(bcd4(x) as u32) / 8) as int),
{
    lemma_bcd4_leading_zeros(x);
    lemma_pow10_values();
    if x >= 1000 {
        lemma_digits_skip(x, 4, 4);
    } else if x >= 100 {
        lemma_digits_skip(x, 4, 3);
    } else if x >= 10 {
        lemma_digits_skip(x, 4, 2);
    } else {
        lemma_digits_skip(x, 4, 1);
    }
}

/// The leading zeros of two 32-bit words joined into one 64-bit word: those
/// of the upper word, or all 32 of it and those of the lower word.
pub proof fn lemma_joined_leading_zeros(h: u32, l: u32)
    ensures
        h != 0 ==> u64_leading_zeros(((h as u64) << 32u64) | (l as u64)) == u32_leading_zeros(h),
        h == 0 ==> u64_leading_zeros(((h as u64) << 32u64) | (l as u64)) == 32 + u32_leading_zeros(
            l,
        ),
{
    let w: u64 = ((h as u64) << 32u64) | (l as u64);
    let lzw: u64 = u64_leading_zeros(w) as u64;
    let lzh: u32 = u32_leading_zeros(h);
    let lzl: u32 = u32_leading_zeros(l);
    axiom_u64_leading_zeros(w);
    axiom_u32_leading_zeros(h);
    axiom_u32_leading_zeros(l);
    let sw1: u64 = (63 - lzw) as u64;
    let sw2: u64 = (64 - lzw) as u64;
    let sh1: u32 = (31 - lzh) as u32;
    let sh2: u32 = (32 - lzh) as u32;
    let sl1: u32 = (31 - lzl) as u32;
    let sl2: u32 = (32 - lzl) as u32;
    assert(lzw < 64 ==> (w >> sw1) & 1u64 != 0u64);
    assert(w >> sw2 == 0u64);
    assert(lzh < 32 ==> (h >> sh1) & 1u32 != 0u32);
    assert(h >> sh2 == 0u32);
    assert(lzl < 32 ==> (l >> sl1) & 1u32 != 0u32);
    assert(l >> sl2 == 0u32);
    assert((h != 0u32 ==> lzw == lzh as u64) && (h == 0u32 ==> lzw == 32u64 + lzl as u64)) by (
    bit_vector)
        requires
            w == ((h as u64) << 32u64) | (l as u64),
            lzw <= 64u64,
            w == 0u64 <==> lzw == 64u64,
            lzw < 64u64 ==> sw1 + lzw == 63u64,
            sw2 + lzw == 64u64,
            lzw < 64u64 ==> (w >> sw1) & 1u64 != 0u64,
            w >> sw2 == 0u64,
            lzh <= 32u32,
            h == 0u32 <==> lzh == 32u32,
            lzh < 32u32 ==> sh1 + lzh == 31u32,
            sh2 + lzh == 32u32,
            lzh < 32u32 ==> (h >> sh1) & 1u32 != 0u32,
            h >> sh2 == 0u32,
            lzl <= 32u32,
            l == 0u32 <==> lzl == 32u32,
            lzl < 32u32 ==> sl1 + lzl == 31u32,
            sl2 + lzl == 32u32,
            lzl < 32u32 ==> (l >> sl1) & 1u32 != 0u32,
            l >> sl2 == 0u32,
    ;
}

/// The text of a number below 10^8 is the ASCII of its two BCD words after
/// the leading zero bytes of the 64-bit word that joins them.
pub proof fn lemma_bcd8_digits(x: nat)
    requires
        1 <= x < 100_000_000,
    ensures
        ({
            let w = (((bcd4(x / 10_000) as u32) as u64) << 32u64) | ((bcd4(x % 10_000) as u32) as u64);
            &&& u64_leading_zeros(w) / 8 <= 7
            &&& crate::decimal::digits(x) == (padded(x / 10_000, 4) + padded(x % 10_000, 4)).skip(
                (u64_leading_zeros(w) / 8) as int,
            )
        }),
{
    let h = x / 10_000;
    let l = x % 10_000;
    lemma_pow10_values();
    lemma_bcd4_ascii(h);
    lemma_bcd4_ascii(l);
    lemma_joined_leading_zeros(bcd4(h) as u32, bcd4(l) as u32);
    lemma_padded_split(x, 4, 4);
    lemma_padded_len(h, 4);
    let w = (((bcd4(h) as u32) as u64) << 32u64) | ((bcd4(l) as u32) as u64);
    if h >= 1 {
        lemma_bcd4_leading_zeros(h);
        assert(u64_leading_zeros(w) == u32_leading_zeros(bcd4(h) as u32));
        if h >= 1000 {
            lemma_digits_skip(x, 8, 8);
        } else if h >= 100 {
            lemma_digits_skip(x, 8, 7);
        } else if h >= 10 {
            lemma_digits_skip(x, 8, 6);
        } else {
            lemma_digits_skip(x, 8, 5);
        }
    } else {
        assert(bcd4(h) == 0);
        lemma_bcd4_leading_zeros(l);
        assert(u64_leading_zeros(w) == 32 + u32_leading_zeros(bcd4(l) as u32));
        if l >= 1000 {
            lemma_digits_skip(x, 8, 4);
        } else if l >= 100 {
            lemma_digits_skip(x, 8, 3);
        } else if l >= 10 {
            lemma_digits_skip(x, 8, 2);
        } else {
            lemma_digits_skip(x, 8, 1);
        }
    }
}

} // verus!
