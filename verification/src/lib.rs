//! Fast conversion of primitive integers to decimal strings, written into a
//! small stack buffer, with every formatting routine proved to produce
//! exactly the decimal text of its input.
use vstd::prelude::*;

pub mod bcd;
pub mod decimal;
pub mod pairs;
mod private;
mod text;
mod unsigned;
pub mod wide;

use crate::decimal::{
    decimal, decimal_chars, lemma_decimal_ascii, lemma_pow10_values, lemma_unsigned_decimal_len,
    unsigned_decimal,
};
pub use crate::bcd::to_bcd4;
pub use crate::pairs::divmod100;
pub use crate::wide::div_rem_1e16;
use crate::text::slice_buffer_to_str;
use crate::unsigned::Unsigned;

verus! {

/// A correctly sized stack allocation for the formatted integer to be written
/// into.
pub struct Buffer {
    bytes: [u8; 40],
}

impl View for Buffer {
    type V = Seq<u8>;

    /// The bytes of the buffer.
    closed spec fn view(&self) -> Seq<u8> {
        self.bytes@
    }
}

/// The contents of a fresh buffer: 40 zero bytes, room for the text of any
/// integer.
pub open spec fn fresh_bytes() -> Seq<u8> {
    Seq::new(40, |_i: int| 0u8)
}

impl Default for Buffer {
    fn default() -> (b: Buffer)
        ensures
            b@ == fresh_bytes(),
    {
        Buffer::new()
    }
}

impl Copy for Buffer {}

impl Clone for Buffer {
    /// A clone is a fresh buffer: nothing written into a buffer is ever read
    /// back through it, so there is nothing to copy.
    fn clone(&self) -> (b: Self)
        ensures
            b@ == fresh_bytes(),
    {
        Buffer::new()
    }
}

impl Buffer {
    /// This is a cheap operation; you don't need to worry about reusing buffers
    /// for efficiency.
    pub fn new() -> (b: Buffer)
        ensures
            b@ == fresh_bytes(),
    {
        let bytes = [0u8; 40];
        let b = Buffer { bytes };
        assert(b@ =~= fresh_bytes());
        b
    }

    /// Print an integer into this buffer and return a reference to its string
    /// representation within the buffer.
    pub fn format<I: Integer>(&mut self, i: I) -> (s: &str)
        ensures
            s@ == decimal_chars(i.as_int()),
            s@.len() <= I::MAX_STR_LEN,
    {
        let string = i.write(&mut self.bytes);
        proof {
            I::lemma_max_str_len(i);
        }
        string
    }
}

/// An integer that can be written into a [`Buffer`].
///
/// This trait is sealed and cannot be implemented for types outside of this
/// crate.
pub trait Integer: private::Sealed {
    /// The maximum length of string that formatting an integer of this type can
    /// produce on the current target platform.
    const MAX_STR_LEN: usize;

    /// The text of every value of the type fits in `MAX_STR_LEN` bytes.
    proof fn lemma_max_str_len(x: Self)
        ensures
            decimal(x.as_int()).len() <= Self::MAX_STR_LEN,
    ;
}

impl Integer for u8 {
    const MAX_STR_LEN: usize = 3;

    proof fn lemma_max_str_len(x: Self) {
        lemma_pow10_values();
        lemma_unsigned_decimal_len(x as nat, 3);
    }
}

impl private::Sealed for u8 {
    open spec fn as_int(self) -> int {
        self as int
    }

    fn write(self, buf: &mut [u8; 40]) -> (s: &str) {
        let offset = Unsigned::fmt(self, buf, 0);
        proof {
            lemma_decimal_ascii(self as int);
        }
        // Starting from `offset`, all elements of the slice have been set.
        slice_buffer_to_str(buf, offset, Self::MAX_STR_LEN)
    }
}

impl Integer for u16 {
    const MAX_STR_LEN: usize = 5;

    proof fn lemma_max_str_len(x: Self) {
        lemma_pow10_values();
        lemma_unsigned_decimal_len(x as nat, 5);
    }
}

impl private::Sealed for u16 {
    open spec fn as_int(self) -> int {
        self as int
    }

    fn write(self, buf: &mut [u8; 40]) -> (s: &str) {
        let offset = Unsigned::fmt(self, buf, 0);
        proof {
            lemma_decimal_ascii(self as int);
        }
        // Starting from `offset`, all elements of the slice have been set.
        slice_buffer_to_str(buf, offset, Self::MAX_STR_LEN)
    }
}

impl Integer for u32 {
    const MAX_STR_LEN: usize = 10;

    proof fn lemma_max_str_len(x: Self) {
        lemma_pow10_values();
        lemma_unsigned_decimal_len(x as nat, 10);
    }
}

impl private::Sealed for u32 {
    open spec fn as_int(self) -> int {
        self as int
    }

    fn write(self, buf: &mut [u8; 40]) -> (s: &str) {
        let offset = Unsigned::fmt(self, buf, 0);
        proof {
            lemma_decimal_ascii(self as int);
        }
        // Starting from `offset`, all elements of the slice have been set.
        slice_buffer_to_str(buf, offset, Self::MAX_STR_LEN)
    }
}

impl Integer for u64 {
    const MAX_STR_LEN: usize = 20;

    proof fn lemma_max_str_len(x: Self) {
        lemma_pow10_values();
        lemma_unsigned_decimal_len(x as nat, 20);
    }
}

impl private::Sealed for u64 {
    open spec fn as_int(self) -> int {
        self as int
    }

    fn write(self, buf: &mut [u8; 40]) -> (s: &str) {
        let offset = Unsigned::fmt(self, buf, 0);
        proof {
            lemma_decimal_ascii(self as int);
        }
        // Starting from `offset`, all elements of the slice have been set.
        slice_buffer_to_str(buf, offset, Self::MAX_STR_LEN)
    }
}

impl Integer for u128 {
    const MAX_STR_LEN: usize = 39;

    proof fn lemma_max_str_len(x: Self) {
        lemma_pow10_values();
        lemma_unsigned_decimal_len(x as nat, 39);
    }
}

impl private::Sealed for u128 {
    open spec fn as_int(self) -> int {
        self as int
    }

    fn write(self, buf: &mut [u8; 40]) -> (s: &str) {
        let offset = Unsigned::fmt(self, buf, 0);
        proof {
            lemma_decimal_ascii(self as int);
        }
        // Starting from `offset`, all elements of the slice have been set.
        slice_buffer_to_str(buf, offset, Self::MAX_STR_LEN)
    }
}

/// `i8::unsigned_abs` from std, documented as the absolute value of `self`
/// computed without wrapping or panicking. Claimed of it: it returns `|x|`,
/// which always fits the unsigned type of the same width.
pub assume_specification[ <i8>::unsigned_abs ](x: i8) -> (r: u8)
    ensures
        r == abs(x as int),
;

impl Integer for i8 {
    const MAX_STR_LEN: usize = 4;

    proof fn lemma_max_str_len(x: Self) {
        lemma_pow10_values();
        lemma_unsigned_decimal_len(abs(x as int) as nat, 3);
    }
}

impl private::Sealed for i8 {
    open spec fn as_int(self) -> int {
        self as int
    }

    fn write(self, buf: &mut [u8; 40]) -> (s: &str) {
        let mut offset = Self::MAX_STR_LEN - <u8 as Integer>::MAX_STR_LEN;
        // The `u8::MAX_STR_LEN` bytes starting at `offset` are exactly the
        // tail of the text window and hold the unsigned text.
        offset += Unsigned::fmt(self.unsigned_abs(), buf, offset);
        let ghost unsigned_buf = buf@;
        if self < 0 {
            offset -= 1;
            buf[offset] = 45u8;
        }
        proof {
            lemma_signed_text(unsigned_buf, buf@, offset as int, 4, self as int);
        }
        // Starting from `offset`, all elements of the slice have been set.
        slice_buffer_to_str(buf, offset, Self::MAX_STR_LEN)
    }
}

/// `i16::unsigned_abs` from std, documented as the absolute value of `self`
/// computed without wrapping or panicking. Claimed of it: it returns `|x|`,
/// which always fits the unsigned type of the same width.
pub assume_specification[ <i16>::unsigned_abs ](x: i16) -> (r: u16)
    ensures
        r == abs(x as int),
;

impl Integer for i16 {
    const MAX_STR_LEN: usize = 6;

    proof fn lemma_max_str_len(x: Self) {
        lemma_pow10_values();
        lemma_unsigned_decimal_len(abs(x as int) as nat, 5);
    }
}

impl private::Sealed for i16 {
    open spec fn as_int(self) -> int {
        self as int
    }

    fn write(self, buf: &mut [u8; 40]) -> (s: &str) {
        let mut offset = Self::MAX_STR_LEN - <u16 as Integer>::MAX_STR_LEN;
        // The `u16::MAX_STR_LEN` bytes starting at `offset` are exactly the
        // tail of the text window and hold the unsigned text.
        offset += Unsigned::fmt(self.unsigned_abs(), buf, offset);
        let ghost unsigned_buf = buf@;
        if self < 0 {
            offset -= 1;
            buf[offset] = 45u8;
        }
        proof {
            lemma_signed_text(unsigned_buf, buf@, offset as int, 6, self as int);
        }
        // Starting from `offset`, all elements of the slice have been set.
        slice_buffer_to_str(buf, offset, Self::MAX_STR_LEN)
    }
}

/// `i32::unsigned_abs` from std, documented as the absolute value of `self`
/// computed without wrapping or panicking. Claimed of it: it returns `|x|`,
/// which always fits the unsigned type of the same width.
pub assume_specification[ <i32>::unsigned_abs ](x: i32) -> (r: u32)
    ensures
        r == abs(x as int),
;

impl Integer for i32 {
    const MAX_STR_LEN: usize = 11;

    proof fn lemma_max_str_len(x: Self) {
        lemma_pow10_values();
        lemma_unsigned_decimal_len(abs(x as int) as nat, 10);
    }
}

impl private::Sealed for i32 {
    open spec fn as_int(self) -> int {
        self as int
    }

    fn write(self, buf: &mut [u8; 40]) -> (s: &str) {
        let mut offset = Self::MAX_STR_LEN - <u32 as Integer>::MAX_STR_LEN;
        // The `u32::MAX_STR_LEN` bytes starting at `offset` are exactly the
        // tail of the text window and hold the unsigned text.
        offset += Unsigned::fmt(self.unsigned_abs(), buf, offset);
        let ghost unsigned_buf = buf@;
        if self < 0 {
            offset -= 1;
            buf[offset] = 45u8;
        }
        proof {
            lemma_signed_text(unsigned_buf, buf@, offset as int, 11, self as int);
        }
        // Starting from `offset`, all elements of the slice have been set.
        slice_buffer_to_str(buf, offset, Self::MAX_STR_LEN)
    }
}

/// `i64::unsigned_abs` from std, documented as the absolute value of `self`
/// computed without wrapping or panicking. Claimed of it: it returns `|x|`,
/// which always fits the unsigned type of the same width.
pub assume_specification[ <i64>::unsigned_abs ](x: i64) -> (r: u64)
    ensures
        r == abs(x as int),
;

impl Integer for i64 {
    const MAX_STR_LEN: usize = 20;

    proof fn lemma_max_str_len(x: Self) {
        lemma_pow10_values();
        lemma_unsigned_decimal_len(abs(x as int) as nat, 19);
    }
}

impl private::Sealed for i64 {
    open spec fn as_int(self) -> int {
        self as int
    }

    fn write(self, buf: &mut [u8; 40]) -> (s: &str) {
        let mut offset = Self::MAX_STR_LEN - <u64 as Integer>::MAX_STR_LEN;
        // The `u64::MAX_STR_LEN` bytes starting at `offset` are exactly the
        // tail of the text window and hold the unsigned text.
        offset += Unsigned::fmt(self.unsigned_abs(), buf, offset);
        let ghost unsigned_buf = buf@;
        proof {
            // Unlike the other signed types, `i64` has no byte in front of the
            // unsigned window (both hold 20): the sign fits because the
            // magnitude has at most 19 digits.
            lemma_pow10_values();
            lemma_unsigned_decimal_len(abs(self as int) as nat, 19);
        }
        if self < 0 {
            offset -= 1;
            buf[offset] = 45u8;
        }
        proof {
            lemma_signed_text(unsigned_buf, buf@, offset as int, 20, self as int);
        }
        // Starting from `offset`, all elements of the slice have been set.
        slice_buffer_to_str(buf, offset, Self::MAX_STR_LEN)
    }
}

/// `i128::unsigned_abs` from std, documented as the absolute value of `self`
/// computed without wrapping or panicking. Claimed of it: it returns `|x|`,
/// which always fits the unsigned type of the same width.
pub assume_specification[ <i128>::unsigned_abs ](x: i128) -> (r: u128)
    ensures
        r == abs(x as int),
;

impl Integer for i128 {
    const MAX_STR_LEN: usize = 40;

    proof fn lemma_max_str_len(x: Self) {
        lemma_pow10_values();
        lemma_unsigned_decimal_len(abs(x as int) as nat, 39);
    }
}

impl private::Sealed for i128 {
    open spec fn as_int(self) -> int {
        self as int
    }

    fn write(self, buf: &mut [u8; 40]) -> (s: &str) {
        let mut offset = Self::MAX_STR_LEN - <u128 as Integer>::MAX_STR_LEN;
        // The `u128::MAX_STR_LEN` bytes starting at `offset` are exactly the
        // tail of the text window and hold the unsigned text.
        offset += Unsigned::fmt(self.unsigned_abs(), buf, offset);
        let ghost unsigned_buf = buf@;
        if self < 0 {
            offset -= 1;
            buf[offset] = 45u8;
        }
        proof {
            lemma_signed_text(unsigned_buf, buf@, offset as int, 40, self as int);
        }
        // Starting from `offset`, all elements of the slice have been set.
        slice_buffer_to_str(buf, offset, Self::MAX_STR_LEN)
    }
}

// `usize` and `isize` are written as the integers of the same width. Their
// `MAX_STR_LEN` is that of the same-width integer on 16-, 32- and 64-bit
// targets; the proofs cover 32- and 64-bit targets.
impl Integer for usize {
    const MAX_STR_LEN: usize = usize::BITS as usize * 3 / 10 + 1;

    proof fn lemma_max_str_len(x: Self) {
        if usize::BITS == 32 {
            <u32 as Integer>::lemma_max_str_len(x as u32);
        } else {
            <u64 as Integer>::lemma_max_str_len(x as u64);
        }
    }
}

impl private::Sealed for usize {
    open spec fn as_int(self) -> int {
        self as int
    }

    fn write(self, buf: &mut [u8; 40]) -> (s: &str) {
        if usize::BITS == 32 {
            (self as u32).write(buf)
        } else {
            (self as u64).write(buf)
        }
    }
}

impl Integer for isize {
    const MAX_STR_LEN: usize = isize::BITS as usize * 3 / 10 + 2 - isize::BITS as usize / 64;

    proof fn lemma_max_str_len(x: Self) {
        if isize::BITS == 32 {
            <i32 as Integer>::lemma_max_str_len(x as i32);
        } else {
            <i64 as Integer>::lemma_max_str_len(x as i64);
        }
    }
}

impl private::Sealed for isize {
    open spec fn as_int(self) -> int {
        self as int
    }

    fn write(self, buf: &mut [u8; 40]) -> (s: &str) {
        if isize::BITS == 32 {
            (self as i32).write(buf)
        } else {
            (self as i64).write(buf)
        }
    }
}

/// No smaller bound than `MAX_STR_LEN` holds: for every integer type, its
/// extreme value (the maximum of an unsigned type, the minimum of a signed
/// one) needs all `MAX_STR_LEN` bytes, on 32- and on 64-bit targets.
pub proof fn lemma_max_str_len_reached()
    ensures
        decimal(u8::MAX as int).len() == <u8 as Integer>::MAX_STR_LEN,
        decimal(u16::MAX as int).len() == <u16 as Integer>::MAX_STR_LEN,
        decimal(u32::MAX as int).len() == <u32 as Integer>::MAX_STR_LEN,
        decimal(u64::MAX as int).len() == <u64 as Integer>::MAX_STR_LEN,
        decimal(u128::MAX as int).len() == <u128 as Integer>::MAX_STR_LEN,
        decimal(i8::MIN as int).len() == <i8 as Integer>::MAX_STR_LEN,
        decimal(i16::MIN as int).len() == <i16 as Integer>::MAX_STR_LEN,
        decimal(i32::MIN as int).len() == <i32 as Integer>::MAX_STR_LEN,
        decimal(i64::MIN as int).len() == <i64 as Integer>::MAX_STR_LEN,
        decimal(i128::MIN as int).len() == <i128 as Integer>::MAX_STR_LEN,
        decimal(usize::MAX as int).len() == <usize as Integer>::MAX_STR_LEN,
        decimal(isize::MIN as int).len() == <isize as Integer>::MAX_STR_LEN,
{
    lemma_pow10_values();
    lemma_unsigned_decimal_len(u8::MAX as nat, 3);
    lemma_unsigned_decimal_len(u16::MAX as nat, 5);
    lemma_unsigned_decimal_len(u32::MAX as nat, 10);
    lemma_unsigned_decimal_len(u64::MAX as nat, 20);
    lemma_unsigned_decimal_len(u128::MAX as nat, 39);
    lemma_unsigned_decimal_len(abs(i8::MIN as int) as nat, 3);
    lemma_unsigned_decimal_len(abs(i16::MIN as int) as nat, 5);
    lemma_unsigned_decimal_len(abs(i32::MIN as int) as nat, 10);
    lemma_unsigned_decimal_len(abs(i64::MIN as int) as nat, 19);
    lemma_unsigned_decimal_len(abs(i128::MIN as int) as nat, 39);
    if usize::BITS == 32 {
        assert(usize::MAX == u32::MAX);
        assert(isize::MIN == i32::MIN);
    } else {
        assert(usize::MAX == u64::MAX);
        assert(isize::MIN == i64::MIN);
    }
}

/// `|i|`.
pub open spec fn abs(i: int) -> int {
    if i < 0 {
        -i
    } else {
        i
    }
}

/// Putting a `'-'` in front of the text of `|i|` when `i` is negative gives
/// the text of `i`.
proof fn lemma_signed_text(before: Seq<u8>, after: Seq<u8>, offset: int, end: int, i: int)
    requires
        end <= before.len(),
        0 <= offset < end,
        i < 0 ==> 1 <= offset + 1 && before.subrange(offset + 1, end) == unsigned_decimal(abs(i) as nat)
            && after == before.update(offset, 45u8),
        i >= 0 ==> 0 <= offset && before.subrange(offset, end) == unsigned_decimal(abs(i) as nat)
            && after == before,
    ensures
        offset <= end,
        after.subrange(offset, end) == decimal(i),
        crate::decimal::all_ascii(after.subrange(offset, end)),
{
    crate::decimal::lemma_unsigned_decimal_well_formed(abs(i) as nat);
    assert(after.subrange(offset, end) =~= decimal(i));
    lemma_decimal_ascii(i);
}

} // verus!
