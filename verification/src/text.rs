//! Turning the ASCII bytes written into a buffer into a `&str`.
use vstd::prelude::*;
use vstd::string::StringSliceAdditionalSpecFns;
use vstd::utf8::{
    decode_utf8, encode_utf8, encode_utf8_decode_utf8, is_ascii_chars, is_ascii_chars_encode_utf8,
};

use crate::decimal::{all_ascii, ascii_chars};

verus! {

#[verifier::external_type_specification]
#[verifier::external_body]
pub struct ExUtf8Error(core::str::Utf8Error);

/// Calls `core::str::from_utf8`. Claimed of it: a slice made only of ASCII
/// bytes (each below 128) is valid UTF-8, so the call succeeds; and on
/// success the string it returns has exactly the given bytes.
#[verifier::external_body]
fn str_from_utf8(v: &[u8]) -> (res: Result<&str, core::str::Utf8Error>)
    ensures
        (forall|j: int| 0 <= j < v@.len() ==> v@[j] < 128) ==> res is Ok,
        res matches Ok(s) ==> s.spec_bytes() == v@,
{
    core::str::from_utf8(v)
}

/// The `&str` made of `buf[offset..end]`, which holds ASCII bytes.
pub fn slice_buffer_to_str(buf: &[u8; 40], offset: usize, end: usize) -> (s: &str)
    requires
        offset <= end <= 40,
        all_ascii(buf@.subrange(offset as int, end as int)),
    ensures
        s@ == ascii_chars(buf@.subrange(offset as int, end as int)),
{
    let written = vstd::slice::slice_subrange(buf.as_slice(), offset, end);
    match str_from_utf8(written) {
        Ok(s) => {
            proof {
                let bytes = written@;
                let chars = ascii_chars(bytes);
                assert(is_ascii_chars(chars));
                is_ascii_chars_encode_utf8(chars);
                assert forall|j: int| 0 <= j < bytes.len() implies (chars[j] as u8) == bytes[j] by {
                    let b = bytes[j];
                    assert(b == buf@.subrange(offset as int, end as int)[j]);
                    assert(b < 128);
                    assert(((b as char) as u8) == b);
                }
                assert(encode_utf8(chars) =~= bytes);
                encode_utf8_decode_utf8(chars);
                encode_utf8_decode_utf8(s@);
                assert(bytes == encode_utf8(s@));
                assert(s@ == decode_utf8(bytes));
            }
            s
        },
        Err(_) => {
            assert(false);
            ""
        },
    }
}

} // verus!
