//! Division of 128-bit integers by 10^16, by multiplication with a
//! precomputed reciprocal.
use vstd::prelude::*;

verus! {

/// 2^64.
pub open spec fn two_pow_64() -> int {
    0x1_0000_0000_0000_0000
}

/// 2^128.
pub open spec fn two_pow_128() -> int {
    0x1_0000_0000_0000_0000_0000_0000_0000_0000int
}

const LOW_64: u128 = 0xffff_ffff_ffff_ffff;

/// The high 128 bits of the 256-bit product of `a` and `b`.
pub fn mulhi(a: u128, b: u128) -> (r: u128)
    ensures
        r as int == (a as int * b as int) / two_pow_128(),
{
    let a_lo = a & LOW_64;
    let a_hi = a >> 64;
    let b_lo = b & LOW_64;
    let b_hi = b >> 64;
    assert(a_lo == a % 0x1_0000_0000_0000_0000 && a_hi == a / 0x1_0000_0000_0000_0000) by (
    bit_vector)
        requires
            a_lo == a & 0xffff_ffff_ffff_ffffu128,
            a_hi == a >> 64u128,
    ;
    assert(b_lo == b % 0x1_0000_0000_0000_0000 && b_hi == b / 0x1_0000_0000_0000_0000) by (
    bit_vector)
        requires
            b_lo == b & 0xffff_ffff_ffff_ffffu128,
            b_hi == b >> 64u128,
    ;
    assert(a_lo * b_lo < two_pow_128() && a_lo * b_hi < two_pow_128() && a_hi * b_lo
        < two_pow_128() && a_hi * b_hi < two_pow_128()) by (nonlinear_arith)
        requires
            a_lo < two_pow_64(),
            a_hi < two_pow_64(),
            b_lo < two_pow_64(),
            b_hi < two_pow_64(),
            two_pow_128() == two_pow_64() * two_pow_64(),
    ;
    let lo_lo = a_lo * b_lo;
    let lo_hi = a_lo * b_hi;
    let hi_lo = a_hi * b_lo;
    let hi_hi = a_hi * b_hi;
    let lo_lo_hi = lo_lo >> 64;
    let lo_hi_lo = lo_hi & LOW_64;
    let lo_hi_hi = lo_hi >> 64;
    let hi_lo_lo = hi_lo & LOW_64;
    let hi_lo_hi = hi_lo >> 64;
    let lo_lo_lo = lo_lo & LOW_64;
    assert(lo_lo_hi == lo_lo / 0x1_0000_0000_0000_0000 && lo_lo_lo == lo_lo
        % 0x1_0000_0000_0000_0000 && lo_hi_lo == lo_hi % 0x1_0000_0000_0000_0000 && lo_hi_hi
        == lo_hi / 0x1_0000_0000_0000_0000 && hi_lo_lo == hi_lo % 0x1_0000_0000_0000_0000
        && hi_lo_hi == hi_lo / 0x1_0000_0000_0000_0000) by (bit_vector)
        requires
            lo_lo_hi == lo_lo >> 64u128,
            lo_lo_lo == lo_lo & 0xffff_ffff_ffff_ffffu128,
            lo_hi_lo == lo_hi & 0xffff_ffff_ffff_ffffu128,
            lo_hi_hi == lo_hi >> 64u128,
            hi_lo_lo == hi_lo & 0xffff_ffff_ffff_ffffu128,
            hi_lo_hi == hi_lo >> 64u128,
    ;
    let mid = lo_lo_hi + lo_hi_lo + hi_lo_lo;
    let mid_hi = mid >> 64;
    assert(mid_hi == mid / 0x1_0000_0000_0000_0000) by (bit_vector)
        requires
            mid_hi == mid >> 64u128,
    ;
    proof {
        let e = two_pow_64();
        let q = hi_hi + lo_hi_hi + hi_lo_hi + mid_hi;
        let mid_lo = (mid as int) % e;
        let rest = mid_lo * e + lo_lo_lo;
        assert(a as int * b as int == q * two_pow_128() + rest && 0 <= rest < two_pow_128()) by (
        nonlinear_arith)
            requires
                e == two_pow_64(),
                two_pow_128() == e * e,
                a == a_hi * e + a_lo,
                b == b_hi * e + b_lo,
                lo_lo == a_lo * b_lo,
                lo_hi == a_lo * b_hi,
                hi_lo == a_hi * b_lo,
                hi_hi == a_hi * b_hi,
                lo_lo == lo_lo_hi * e + lo_lo_lo,
                lo_hi == lo_hi_hi * e + lo_hi_lo,
                hi_lo == hi_lo_hi * e + hi_lo_lo,
                0 <= lo_lo_lo < e,
                mid == lo_lo_hi + lo_hi_lo + hi_lo_lo,
                mid == mid_hi * e + mid_lo,
                0 <= mid_lo < e,
                q == hi_hi + lo_hi_hi + hi_lo_hi + mid_hi,
                rest == mid_lo * e + lo_lo_lo,
        ;
        vstd::arithmetic::div_mod::lemma_fundamental_div_mod_converse(
            a as int * b as int,
            two_pow_128(),
            q,
            rest,
        );
        assert(a as int * b as int <= (two_pow_128() - 1) * (two_pow_128() - 1)) by (
        nonlinear_arith)
            requires
                0 <= a < two_pow_128(),
                0 <= b < two_pow_128(),
        ;
        assert(q < two_pow_128()) by (nonlinear_arith)
            requires
                a as int * b as int == q * two_pow_128() + rest,
                0 <= rest,
                a as int * b as int <= (two_pow_128() - 1) * (two_pow_128() - 1),
                two_pow_128() > 1,
        ;
    }
    hi_hi + lo_hi_hi + hi_lo_hi + mid_hi
}

/// 10^16: the divisor.
const D: u128 = 1_0000_0000_0000_0000;

// These constant values are computed with the CHOOSE_MULTIPLIER procedure
// from the Granlund & Montgomery paper, using N=128, prec=128 and d=1E16:
// M_HIGH * D exceeds 2^(128 + SH_POST) by no more than 2^SH_POST.
const M_HIGH: u128 = 76624777043294442917917351357515459181;

const SH_POST: u8 = 51;

/// Euclidean division plus remainder with constant 1E16, which consumes the
/// 16 least-significant decimals of `n`.
///
/// The integer division algorithm is based on the following paper:
///
///   T. Granlund and P. Montgomery, "Division by Invariant Integers Using
///   Multiplication" in Proc. of the SIGPLAN94 Conference on Programming
///   Language Design and Implementation, 1994, pp. 61-72
pub fn div_rem_1e16(n: u128) -> (res: (u128, u64))
    ensures
        res.0 == n / 10_000_000_000_000_000,
        res.1 == n % 10_000_000_000_000_000,
{
    // The check inlines well with the caller flow.
    if n < D {
        return (0, n as u64);
    }
    // n.widening_mul(M_HIGH).1 >> SH_POST
    let high = mulhi(n, M_HIGH);
    let quot = high >> SH_POST;
    assert(quot == high / 0x8_0000_0000_0000) by (bit_vector)
        requires
            quot == high >> 51u8,
    ;
    proof {
        let t = two_pow_128();
        let s = 0x8_0000_0000_0000int;
        let m = M_HIGH as int;
        let d = D as int;
        let q = (n as int) / d;
        let r = (n as int) % d;
        // M_HIGH * D == 2^179 + e with 0 < e <= 2^51.
        assert(m * d == t * s + 630438908198912);
        vstd::arithmetic::div_mod::lemma_fundamental_div_mod(n as int, d);
        vstd::arithmetic::div_mod::lemma_mod_bound(n as int, d);
        vstd::arithmetic::div_mod::lemma_fundamental_div_mod((n as int) * m, t);
        vstd::arithmetic::div_mod::lemma_mod_bound((n as int) * m, t);
        vstd::arithmetic::div_mod::lemma_fundamental_div_mod(high as int, s);
        vstd::arithmetic::div_mod::lemma_mod_bound(high as int, s);
        assert(quot == q) by (nonlinear_arith)
            requires
                m * d == t * s + 630438908198912,
                t == 0x1_0000_0000_0000_0000_0000_0000_0000_0000int,
                s == 0x8_0000_0000_0000int,
                0 <= n < t,
                n == d * q + r,
                0 <= r < d,
                d == 1_0000_0000_0000_0000int,
                (n as int) * m == t * high + (n as int) * m % t,
                0 <= (n as int) * m % t < t,
                high == s * quot + (high as int) % s,
                0 <= (high as int) % s < s,
        ;
    }
    let rem = n - quot * D;
    (quot, rem as u64)
}

} // verus!
