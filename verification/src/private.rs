//! The part of the integer interface that only this crate implements.
use vstd::prelude::*;

use crate::decimal::decimal_chars;

verus! {

/// Writing a value of a primitive integer type into a buffer.
pub trait Sealed: Copy {
    /// The number that this value stands for.
    spec fn as_int(self) -> int;

    /// Writes the decimal text of `self` into `buf` and returns it.
    fn write(self, buf: &mut [u8; 40]) -> (s: &str)
        ensures
            s@ == decimal_chars(self.as_int()),
    ;
}

} // verus!
