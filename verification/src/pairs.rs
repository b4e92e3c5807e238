//! Writing groups of two and four decimal digits.
use vstd::prelude::*;

use crate::decimal::{digit_byte, lemma_padded_len, padded, splice};

verus! {

/// Returns `(value / 100, value % 100)`, computed by a multiplication and a
/// shift, for values of up to four digits.
pub fn divmod100(value: u32) -> (res: (u32, u32))
    requires
        value < 10_000,
    ensures
        res.0 == value / 100,
        res.1 == value % 100,
{
    // SIG == (1 << 19) / 100 + 1
    let product: u32 = value * 5243;
    let div = product >> 19;
    assert(product >> 19u32 == value / 100) by (bit_vector)
        requires
            value < 10_000u32,
            product == value * 5243u32,
    ;
    (div, value - div * 100)
}

/// The two ASCII digits of every number in `00..=99`, in order: the lookup
/// table from which pairs of digits are copied.
const DECIMAL_PAIRS: [u8; 200] = [
    48, 48, 48, 49, 48, 50, 48, 51, 48, 52, 48, 53, 48, 54, 48, 55, 48, 56, 48, 57,
    49, 48, 49, 49, 49, 50, 49, 51, 49, 52, 49, 53, 49, 54, 49, 55, 49, 56, 49, 57,
    50, 48, 50, 49, 50, 50, 50, 51, 50, 52, 50, 53, 50, 54, 50, 55, 50, 56, 50, 57,
    51, 48, 51, 49, 51, 50, 51, 51, 51, 52, 51, 53, 51, 54, 51, 55, 51, 56, 51, 57,
    52, 48, 52, 49, 52, 50, 52, 51, 52, 52, 52, 53, 52, 54, 52, 55, 52, 56, 52, 57,
    53, 48, 53, 49, 53, 50, 53, 51, 53, 52, 53, 53, 53, 54, 53, 55, 53, 56, 53, 57,
    54, 48, 54, 49, 54, 50, 54, 51, 54, 52, 54, 53, 54, 54, 54, 55, 54, 56, 54, 57,
    55, 48, 55, 49, 55, 50, 55, 51, 55, 52, 55, 53, 55, 54, 55, 55, 55, 56, 55, 57,
    56, 48, 56, 49, 56, 50, 56, 51, 56, 52, 56, 53, 56, 54, 56, 55, 56, 56, 56, 57,
    57, 48, 57, 49, 57, 50, 57, 51, 57, 52, 57, 53, 57, 54, 57, 55, 57, 56, 57, 57,
];

/// `padded(n, 2)` spelled out: the tens digit, then the units digit.
pub proof fn lemma_padded_two(n: nat)
    requires
        n < 100,
    ensures
        padded(n, 2) == seq![digit_byte(n / 10), digit_byte(n % 10)],
{
    reveal_with_fuel(padded, 3);
    assert(n / 10 / 10 == 0 && (n / 10) % 10 == n / 10);
    assert(padded(n, 2) =~= seq![digit_byte(n / 10), digit_byte(n % 10)]);
}

/// Four digits are the pair of their upper two followed by the pair of
/// their lower two.
pub proof fn lemma_padded_four(n: nat)
    requires
        n < 10_000,
    ensures
        padded(n, 4) == padded(n / 100, 2) + padded(n % 100, 2),
{
    reveal_with_fuel(padded, 5);
    lemma_padded_two(n / 100);
    lemma_padded_two(n % 100);
    assert(n / 10 / 10 == n / 100 && n / 10 / 10 / 10 == n / 1000 && n / 1000 / 10 == 0);
    assert((n / 10) % 10 == (n % 100) / 10 && n % 10 == (n % 100) % 10);
    assert((n / 1000) % 10 == n / 1000);
    assert(padded(n, 4) =~= padded(n / 100, 2) + padded(n % 100, 2));
}

/// Writes `pair` as exactly two decimal digits into `buf[offset..offset + 2]`,
/// zero padded (for example 7 becomes `"07"`).
pub fn write_pair(buf: &mut [u8; 40], offset: usize, pair: u32)
    requires
        pair < 100,
        offset + 2 <= 40,
    ensures
        final(buf)@ == splice(old(buf)@, offset as int, padded(pair as nat, 2)),
{
    let pair = pair as usize;
    buf[offset + 0] = DECIMAL_PAIRS[pair * 2 + 0];
    buf[offset + 1] = DECIMAL_PAIRS[pair * 2 + 1];
    proof {
        lemma_padded_two(pair as nat);
        assert(final(buf)@ =~= splice(old(buf)@, offset as int, padded(pair as nat, 2)));
    }
}

/// Writes `quad` as exactly four decimal digits into `buf[offset..offset + 4]`,
/// zero padded (for example 42 becomes `"0042"`).
pub fn write_quad(buf: &mut [u8; 40], offset: usize, quad: u32)
    requires
        quad < 10_000,
        offset + 4 <= 40,
    ensures
        final(buf)@ == splice(old(buf)@, offset as int, padded(quad as nat, 4)),
{
    let (pair1, pair2) = divmod100(quad);
    write_pair(buf, offset + 0, pair1);
    write_pair(buf, offset + 2, pair2);
    proof {
        lemma_padded_four(quad as nat);
        lemma_padded_len(pair1 as nat, 2);
        lemma_padded_len(pair2 as nat, 2);
        lemma_padded_len(quad as nat, 4);
        assert(final(buf)@ =~= splice(old(buf)@, offset as int, padded(quad as nat, 4)));
    }
}

} // verus!
