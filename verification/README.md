# Verified integer-to-decimal formatting

`Buffer::format` writes the decimal text of any primitive integer into a small
stack buffer and returns it as a `&str`. Every routine is verified with Verus:
the returned string is proved to be exactly the decimal text of the value
(`decimal_chars(i)`), no routine can panic or overflow, and the text never
exceeds `Integer::MAX_STR_LEN`.

Layout of `src/`:

- `lib.rs`: `Buffer`, the `Integer` trait and its implementations for every
  primitive integer type, and the law that `MAX_STR_LEN` is reached.
- `private.rs`: the sealed trait through which a value writes itself.
- `decimal.rs`: the mathematical model of decimal text and its lemmas
  (splitting digit groups, lengths, reading the text back).
- `pairs.rs`: two and four digits at a time from a lookup table.
- `bcd.rs`: four digits at a time as binary-coded decimal words.
- `unsigned.rs`: the digit writers of the unsigned types.
- `wide.rs`: 128-bit division by 10^16 through a reciprocal multiplication.
- `text.rs`: turning the written ASCII bytes into a `&str`.
