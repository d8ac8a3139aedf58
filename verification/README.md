# decimal_bytes

Arbitrary precision decimals stored as bytes whose lexicographic order follows
the numerical order, verified with Verus.

A nonzero value `±0.d1 d2 ... dn × 10^e` (with `d1 ≠ 0`, `dn ≠ 0` and
`-16383 ≤ e ≤ 131072`) is encoded as

```text
[sign byte] [exponent bytes] [digits, two per byte]
```

- the exponent is two bytes, big-endian, biased by 16384; above 49148 it is
  the escape field `FF FD` followed by the exponent in four bytes, big-endian;
- for a negative value every exponent byte is inverted, the digits are stored
  as their nines' complement, and a `FF` byte ends the mantissa;
- zero is the single byte `0x80`; -Infinity is `00 00 00`, Infinity
  `FF FF FE` and NaN `FF FF FF`.

So `-Infinity < negative values < zero < positive values < Infinity < NaN`
holds of the bytes as of the values.

## Layout

- `src/lib.rs` — the `Decimal` type (bytes with the invariant that they are the
  encoding of a value), its constructors, accessors, special values, and the
  `Default`, `Clone`, `FromStr` and `From` impls for the integer types.
- `src/compare.rs` — `PartialEq` and `PartialOrd` of `Decimal`, by its bytes.
- `src/encoding.rs` — the model of the encoding (`encode_parts`,
  `decode_value`) and the byte code: `encode_decimal`, `decode_to_string`,
  exponent and mantissa bytes.
- `src/special.rs` — Infinity, -Infinity and NaN: names and bytes.
- `src/parse.rs` — `read_decimal`, what a text reads as, and `parse_decimal`.
- `src/format.rs` — the plain notation of a value, `format_decimal`.
- `src/truncate.rs` — SQL `NUMERIC(precision, scale)` on a value: rounding to
  the scale (ties away from zero, negative scales included), keeping the least
  significant `precision - scale` integer digits; with a precision alone, the
  least significant `precision` integer digits, rounded to `precision`
  significant digits.
- `src/text.rs` — whitespace trimming, digit text, `i32` text, string conversions.
- `src/integer.rs` — the decimal text of integers.
- `src/order.rs`, `src/value.rs`, `src/roundtrip.rs` — lexicographic order, the
  numbers values stand for, and reading formatted text.
- `src/laws.rs` — the laws: byte order is value order (special values
  included), decoding accepts exactly the encodings and gives back what was
  encoded, equal values share their bytes, reading keeps the value, the text
  round trip, canonical texts come back letter for letter, the encoding's size,
  and the bounds that precision and scale put on a result.
- `app/lib.rs` — `Display`, `Debug`, `std::error::Error` (thiserror) and serde
  `Serialize`/`Deserialize` on copies of the library's types.
