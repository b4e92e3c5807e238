//! The mathematical model of decimal text: what every formatting routine in
//! this crate is proved to produce, and the facts about it that the proofs use.
use vstd::prelude::*;

verus! {

/// `10^k`.
pub open spec fn pow10(k: nat) -> nat
    decreases k,
{
    if k == 0 {
        1
    } else {
        10 * pow10((k - 1) as nat)
    }
}

/// The ASCII byte of the decimal digit `d` (`d < 10`).
pub open spec fn digit_byte(d: nat) -> u8 {
    (48 + d) as u8
}

/// The ASCII decimal digits of `n`, most significant first, without leading
/// zeros. Zero has no significant digits, so its sequence is empty.
pub open spec fn digits(n: nat) -> Seq<u8>
    decreases n,
{
    if n == 0 {
        Seq::empty()
    } else {
        digits(n / 10).push(digit_byte(n % 10))
    }
}

/// The last `k` decimal digits of `n` in ASCII, zero padded to exactly `k`
/// bytes (for example `padded(7, 2)` is `"07"`).
pub open spec fn padded(n: nat, k: nat) -> Seq<u8>
    decreases k,
{
    if k == 0 {
        Seq::empty()
    } else {
        padded(n / 10, (k - 1) as nat).push(digit_byte(n % 10))
    }
}

/// The text of a non-negative integer: its digits, or `"0"` for zero.
pub open spec fn unsigned_decimal(n: nat) -> Seq<u8> {
    if n == 0 {
        seq![48u8]
    } else {
        digits(n)
    }
}

/// The text of an integer: a `'-'` followed by the digits of its magnitude
/// when it is negative, the text of the unsigned value otherwise.
pub open spec fn decimal(i: int) -> Seq<u8> {
    if i < 0 {
        seq![45u8] + unsigned_decimal((-i) as nat)
    } else {
        unsigned_decimal(i as nat)
    }
}

/// The characters that a sequence of ASCII bytes stands for.
pub open spec fn ascii_chars(bytes: Seq<u8>) -> Seq<char> {
    bytes.map_values(|b: u8| b as char)
}

/// The text of an integer as characters, which is how a `&str` is viewed.
pub open spec fn decimal_chars(i: int) -> Seq<char> {
    ascii_chars(decimal(i))
}

/// The number that a sequence of ASCII decimal digits spells.
pub open spec fn digits_value(s: Seq<u8>) -> int
    decreases s.len(),
{
    if s.len() == 0 {
        0
    } else {
        digits_value(s.drop_last()) * 10 + (s.last() - 48)
    }
}

/// Every byte of `s` is an ASCII decimal digit.
pub open spec fn all_digits(s: Seq<u8>) -> bool {
    forall|j: int| 0 <= j < s.len() ==> 48 <= #[trigger] s[j] <= 57
}

/// Every byte of `s` is ASCII.
pub open spec fn all_ascii(s: Seq<u8>) -> bool {
    forall|j: int| 0 <= j < s.len() ==> #[trigger] s[j] < 128
}

/// `s` with `bytes` written over it from index `at` on.
pub open spec fn splice(s: Seq<u8>, at: int, bytes: Seq<u8>) -> Seq<u8> {
    s.take(at) + bytes + s.skip(at + bytes.len())
}

/// `new` holds what `old` holds everywhere but in `lo..hi`.
pub open spec fn unchanged_outside(old: Seq<u8>, new: Seq<u8>, lo: int, hi: int) -> bool {
    &&& new.len() == old.len()
    &&& forall|j: int| 0 <= j < old.len() && (j < lo || hi <= j) ==> #[trigger] new[j] == old[j]
}

/// A write of `bytes` at `at` changes nothing outside `at..at + len`.
pub proof fn lemma_splice_unchanged(old: Seq<u8>, new: Seq<u8>, at: int, bytes: Seq<u8>)
    requires
        new == splice(old, at, bytes),
        0 <= at,
        at + bytes.len() <= old.len(),
    ensures
        unchanged_outside(old, new, at, at + bytes.len()),
{
    assert forall|j: int|
        0 <= j < old.len() && (j < at || at + bytes.len() <= j) implies #[trigger] new[j]
        == old[j] by {
        if j < at {
            assert(new[j] == old.take(at)[j]);
        } else {
            assert(new[j] == old.skip(at + bytes.len())[j - at - bytes.len()]);
        }
    }
}

/// What is left alone outside `lo..hi` is left alone before `lo` and from
/// `hi` on.
pub proof fn lemma_unchanged_ends(old: Seq<u8>, new: Seq<u8>, lo: int, hi: int)
    requires
        unchanged_outside(old, new, lo, hi),
        0 <= lo <= hi <= old.len(),
    ensures
        new.subrange(0, lo) == old.subrange(0, lo),
        new.subrange(hi, old.len() as int) == old.subrange(hi, old.len() as int),
{
    assert(new.subrange(0, lo) =~= old.subrange(0, lo));
    assert(new.subrange(hi, old.len() as int) =~= old.subrange(hi, old.len() as int));
}

/// What a write of `bytes` at `at` leaves in `new[at..end]`: the bytes
/// written, then what was there before.
pub proof fn lemma_splice_subrange(old: Seq<u8>, new: Seq<u8>, at: int, bytes: Seq<u8>, end: int)
    requires
        new == splice(old, at, bytes),
        0 <= at,
        at + bytes.len() <= end <= old.len(),
    ensures
        new.len() == old.len(),
        new.subrange(at, end) == bytes + old.subrange(at + bytes.len(), end),
        new.take(at) == old.take(at),
{
    assert(new.subrange(at, end) =~= bytes + old.subrange(at + bytes.len(), end));
    assert(new.take(at) =~= old.take(at));
}

/// Writing `bytes` at `at` puts exactly them in `new[at..at + len]` and
/// leaves every range that does not overlap them as it was.
pub proof fn lemma_splice_ranges(old: Seq<u8>, new: Seq<u8>, at: int, bytes: Seq<u8>)
    requires
        new == splice(old, at, bytes),
        0 <= at,
        at + bytes.len() <= old.len(),
    ensures
        new.len() == old.len(),
        new.subrange(at, at + bytes.len()) == bytes,
        forall|a: int, b: int|
            0 <= a <= b <= old.len() && (b <= at || at + bytes.len() <= a) ==> #[trigger] new.subrange(
                a,
                b,
            ) == old.subrange(a, b),
{
    assert(new.subrange(at, at + bytes.len()) =~= bytes);
    assert forall|a: int, b: int|
        0 <= a <= b <= old.len() && (b <= at || at + bytes.len() <= a) implies #[trigger] new.subrange(
        a,
        b,
    ) == old.subrange(a, b) by {
        assert(new.subrange(a, b) =~= old.subrange(a, b));
    }
}

/// Two writes side by side are one write of both.
pub proof fn lemma_splice_concat(s0: Seq<u8>, s1: Seq<u8>, s2: Seq<u8>, at: int, x: Seq<u8>, y: Seq<u8>)
    requires
        0 <= at,
        at + x.len() + y.len() <= s0.len(),
        s1 == splice(s0, at, x),
        s2 == splice(s1, at + x.len(), y),
    ensures
        s2 == splice(s0, at, x + y),
{
    assert(s2 =~= splice(s0, at, x + y));
}

/// The text of a single non-zero digit.
pub proof fn lemma_digits_single(d: nat)
    requires
        1 <= d < 10,
    ensures
        digits(d) == seq![digit_byte(d)],
{
    assert(d / 10 == 0 && d % 10 == d);
    assert(digits(0) =~= Seq::<u8>::empty());
    assert(digits(d) =~= seq![digit_byte(d)]);
}

pub proof fn lemma_pow10_positive(k: nat)
    ensures
        pow10(k) >= 1,
    decreases k,
{
    if k > 0 {
        lemma_pow10_positive((k - 1) as nat);
    }
}

pub proof fn lemma_padded_len(n: nat, k: nat)
    ensures
        padded(n, k).len() == k,
    decreases k,
{
    if k > 0 {
        lemma_padded_len(n / 10, (k - 1) as nat);
    }
}

pub proof fn lemma_digits_all_digits(n: nat)
    ensures
        all_digits(digits(n)),
    decreases n,
{
    if n > 0 {
        lemma_digits_all_digits(n / 10);
        let p = digits(n / 10);
        assert forall|j: int| 0 <= j < digits(n).len() implies 48 <= #[trigger] digits(n)[j]
            <= 57 by {
            if j < p.len() {
                assert(digits(n)[j] == p[j]);
            }
        }
    }
}

/// Splitting off the last `k` digits: the text of `q * 10^k + r`, for a
/// positive `q` and `r < 10^k`, is the text of `q` followed by `r` padded to
/// `k` digits.
pub proof fn lemma_digits_concat(q: nat, r: nat, k: nat)
    requires
        q >= 1,
        r < pow10(k),
    ensures
        digits(q * pow10(k) + r) == digits(q) + padded(r, k),
    decreases k,
{
    if k == 0 {
        assert(digits(q) + padded(r, k) =~= digits(q));
    } else {
        let p = pow10((k - 1) as nat);
        let m = q * pow10(k) + r;
        lemma_pow10_positive((k - 1) as nat);
        assert(r / 10 < p && m / 10 == q * p + r / 10 && m % 10 == r % 10 && m > 0) by (
        nonlinear_arith)
            requires
                pow10(k) == 10 * p,
                m == q * pow10(k) + r,
                r < pow10(k),
                q >= 1,
                p >= 1,
        ;
        lemma_digits_concat(q, r / 10, (k - 1) as nat);
        assert(digits(m) =~= digits(q) + padded(r, k));
    }
}

/// A number with exactly `k` significant digits is its own `k`-digit
/// padding.
pub proof fn lemma_digits_padded(r: nat, k: nat)
    requires
        k >= 1,
        pow10((k - 1) as nat) <= r < pow10(k),
    ensures
        digits(r) == padded(r, k),
    decreases k,
{
    if k == 1 {
        assert(r / 10 == 0 && r % 10 == r);
        assert(digits(0) =~= Seq::<u8>::empty());
        assert(padded(0, 0) =~= Seq::<u8>::empty());
        assert(digits(r) =~= padded(r, k));
    } else {
        let p = pow10((k - 2) as nat);
        assert(p <= r / 10 < pow10((k - 1) as nat)) by (nonlinear_arith)
            requires
                pow10((k - 1) as nat) == 10 * p,
                pow10(k) == 10 * pow10((k - 1) as nat),
                pow10((k - 1) as nat) <= r < pow10(k),
        ;
        lemma_digits_padded(r / 10, (k - 1) as nat);
    }
}

/// A number below `10^k` has at most `k` digits, and one of at least
/// `10^k` has more.
pub proof fn lemma_digits_len(n: nat, k: nat)
    ensures
        n < pow10(k) <==> digits(n).len() <= k,
    decreases n,
{
    if n == 0 {
        lemma_pow10_positive(k);
    } else if k == 0 {
    } else {
        let p = pow10((k - 1) as nat);
        assert(n < 10 * p <==> n / 10 < p) by (nonlinear_arith);
        lemma_digits_len(n / 10, (k - 1) as nat);
    }
}

/// Peeling the last `k` digits off a number that has at least `k` of them:
/// its text is the text of the rest followed by those `k` digits.
pub proof fn lemma_peel(n: nat, k: nat)
    requires
        k >= 1,
        pow10((k - 1) as nat) <= n,
    ensures
        digits(n) == digits(n / pow10(k)) + padded(n % pow10(k), k),
{
    lemma_pow10_positive(k);
    let q = n / pow10(k);
    let r = n % pow10(k);
    vstd::arithmetic::div_mod::lemma_fundamental_div_mod(n as int, pow10(k) as int);
    vstd::arithmetic::mul::lemma_mul_is_commutative(q as int, pow10(k) as int);
    vstd::arithmetic::div_mod::lemma_mod_bound(n as int, pow10(k) as int);
    if q >= 1 {
        lemma_digits_concat(q, r, k);
    } else {
        assert(n < pow10(k) && r == n) by (nonlinear_arith)
            requires
                q == 0,
                n == pow10(k) * q + r,
                r < pow10(k),
        ;
        lemma_digits_padded(n, k);
        assert(digits(0) =~= Seq::<u8>::empty());
        assert(digits(q) + padded(r, k) =~= padded(r, k));
    }
}

/// Splitting a padded group: the last `a + b` digits of `n` are the last `a`
/// digits of `n / 10^b` followed by the last `b` digits of `n`.
pub proof fn lemma_padded_split(n: nat, a: nat, b: nat)
    ensures
        padded(n, a + b) == padded(n / pow10(b), a) + padded(n % pow10(b), b),
    decreases b,
{
    if b == 0 {
        assert(pow10(0) == 1);
        assert(n / 1 == n);
        lemma_padded_len(n % pow10(b), 0);
        assert(a + b == a);
        assert(padded(n, a + b) =~= padded(n / pow10(b), a) + padded(n % pow10(b), b));
    } else {
        let p = pow10((b - 1) as nat);
        lemma_pow10_positive((b - 1) as nat);
        lemma_padded_split(n / 10, a, (b - 1) as nat);
        vstd::arithmetic::div_mod::lemma_div_denominator(n as int, 10, p as int);
        vstd::arithmetic::div_mod::lemma_mod_mod(n as int, 10, p as int);
        vstd::arithmetic::div_mod::lemma_mod_breakdown(n as int, 10, p as int);
        let m = (n / 10) % p;
        vstd::arithmetic::div_mod::lemma_mod_bound((n / 10) as int, p as int);
        assert((n % pow10(b)) / 10 == m) by {
            vstd::arithmetic::div_mod::lemma_fundamental_div_mod_converse(
                (n % pow10(b)) as int,
                10,
                m as int,
                (n % 10) as int,
            );
        }
        let rest = (a + b - 1) as nat;
        assert(rest == a + (b - 1) as nat);
        let hi = padded(n / pow10(b), a);
        let lo_rest = padded(m, (b - 1) as nat);
        assert(padded(n / 10, rest) == hi + lo_rest);
        assert(padded(n, a + b) == padded(n / 10, rest).push(digit_byte(n % 10)));
        assert(padded(n % pow10(b), b) == lo_rest.push(digit_byte(n % 10)));
        assert(padded(n, a + b) =~= hi + padded(n % pow10(b), b));
    }
}

/// Dropping the leading zeros of a zero-padded number: a number with exactly
/// `k` significant digits, padded to `m >= k` digits, is its text after
/// `m - k` zeros.
pub proof fn lemma_digits_skip(x: nat, m: nat, k: nat)
    requires
        1 <= k <= m,
        pow10((k - 1) as nat) <= x < pow10(k),
    ensures
        digits(x) == padded(x, m).skip(m - k),
{
    lemma_padded_split(x, (m - k) as nat, k);
    lemma_padded_len(x / pow10(k), (m - k) as nat);
    vstd::arithmetic::div_mod::lemma_small_mod(x, pow10(k));
    lemma_digits_padded(x, k);
    assert(padded(x, m).skip(m - k) =~= padded(x % pow10(k), k));
}

/// The length of the text of `n` against powers of ten.
pub proof fn lemma_unsigned_decimal_len(n: nat, k: nat)
    requires
        k >= 1,
    ensures
        n < pow10(k) ==> unsigned_decimal(n).len() <= k,
        pow10((k - 1) as nat) <= n ==> unsigned_decimal(n).len() >= k,
{
    lemma_digits_len(n, k);
    lemma_digits_len(n, (k - 1) as nat);
    lemma_pow10_positive((k - 1) as nat);
}

/// The powers of ten that bound the integer types.
pub proof fn lemma_pow10_values()
    ensures
        pow10(1) == 10,
        pow10(2) == 100,
        pow10(3) == 1000,
        pow10(4) == 10_000,
        pow10(5) == 100_000,
        pow10(7) == 10_000_000,
        pow10(8) == 100_000_000,
        pow10(9) == 1_000_000_000,
        pow10(10) == 10_000_000_000,
        pow10(16) == 10_000_000_000_000_000,
        pow10(18) == 1_000_000_000_000_000_000,
        pow10(19) == 10_000_000_000_000_000_000,
        pow10(20) == 100_000_000_000_000_000_000,
        pow10(32) == 100_000_000_000_000_000_000_000_000_000_000,
        pow10(38) == 100_000_000_000_000_000_000_000_000_000_000_000_000,
        pow10(39) == 1_000_000_000_000_000_000_000_000_000_000_000_000_000,
{
    reveal_with_fuel(pow10, 40);
}

/// Reading the digits of `n` back gives `n`.
pub proof fn lemma_digits_value(n: nat)
    ensures
        digits_value(digits(n)) == n,
    decreases n,
{
    if n > 0 {
        lemma_digits_value(n / 10);
        assert(digits(n).drop_last() =~= digits(n / 10));
    }
}

/// The text of an unsigned number consists of ASCII digits that spell it,
/// and it starts with `'0'` only when it is `"0"`.
pub proof fn lemma_unsigned_decimal_well_formed(n: nat)
    ensures
        all_digits(unsigned_decimal(n)),
        digits_value(unsigned_decimal(n)) == n,
        unsigned_decimal(n).len() >= 1,
        unsigned_decimal(n)[0] == 48u8 ==> n == 0 && unsigned_decimal(n).len() == 1,
    decreases n,
{
    lemma_digits_all_digits(n);
    lemma_digits_value(n);
    if n == 0 {
        assert(digits_value(seq![48u8]) == 0) by {
            assert(seq![48u8].drop_last() =~= Seq::<u8>::empty());
        }
    } else if n < 10 {
        assert(digits(n / 10) =~= Seq::<u8>::empty());
    } else {
        lemma_unsigned_decimal_well_formed(n / 10);
        assert(digits(n)[0] == digits(n / 10)[0]);
    }
}

/// Canonical unsigned decimal text: one or more ASCII digits, starting with
/// `'0'` only when it is `"0"`.
pub open spec fn is_canonical_unsigned(s: Seq<u8>) -> bool {
    &&& s.len() >= 1
    &&& all_digits(s)
    &&& s[0] == 48u8 ==> s.len() == 1
}

/// Canonical decimal text: canonical unsigned text, or a `'-'` followed by
/// canonical unsigned text of a non-zero number.
pub open spec fn is_canonical_decimal(s: Seq<u8>) -> bool {
    ||| is_canonical_unsigned(s)
    ||| s.len() >= 2 && s[0] == 45u8 && is_canonical_unsigned(s.drop_first()) && s[1] != 48u8
}

/// The integer that decimal text spells: digits, with a leading `'-'`
/// negating them.
pub open spec fn decimal_value(s: Seq<u8>) -> int {
    if s.len() > 0 && s[0] == 45u8 {
        -digits_value(s.drop_first())
    } else {
        digits_value(s)
    }
}

/// The text of every integer is canonical decimal text, and reading it back
/// gives the integer.
pub proof fn lemma_decimal_roundtrip(i: int)
    ensures
        is_canonical_decimal(decimal(i)),
        decimal_value(decimal(i)) == i,
{
    let n = if i < 0 { -i } else { i };
    lemma_unsigned_decimal_well_formed(n as nat);
    if i < 0 {
        assert(decimal(i).drop_first() =~= unsigned_decimal(n as nat));
    }
}

/// Different integers have different texts.
pub proof fn lemma_decimal_injective(i: int, j: int)
    requires
        decimal(i) == decimal(j),
    ensures
        i == j,
{
    lemma_decimal_roundtrip(i);
    lemma_decimal_roundtrip(j);
}

/// The text of any integer is ASCII.
pub proof fn lemma_decimal_ascii(i: int)
    ensures
        all_ascii(decimal(i)),
{
    let n = if i < 0 { -i } else { i };
    lemma_unsigned_decimal_well_formed(n as nat);
    let u = unsigned_decimal(n as nat);
    if i < 0 {
        assert forall|j: int| 0 <= j < decimal(i).len() implies #[trigger] decimal(i)[j] < 128 by {
            if j > 0 {
                assert(decimal(i)[j] == u[j - 1]);
            }
        }
    } else {
        assert forall|j: int| 0 <= j < decimal(i).len() implies #[trigger] decimal(i)[j] < 128 by {
            assert(48 <= u[j] <= 57);
        }
    }
}

} // verus!
