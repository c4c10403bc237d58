# immediates

Immediate operands of compiler instructions and their text:

- `Imm64` (64-bit integers), `Uimm32` (unsigned 32-bit sizes) and `Offset32`
  (signed 32-bit offsets), written in decimal when small and as `0x` and
  hexadecimal digits in groups of four (`0xffff_ffff_fff8_4400`) otherwise,
  and read back from decimal or hexadecimal text with `_` separators;
- `Ieee32` and `Ieee64`, IEEE 754 bit patterns written as exact hexadecimal
  significands (`0x1.800000p0`, `0x0.000002p-126`), `0.0`, `+Inf`, `NaN`,
  `NaN:0x..` and `sNaN:0x..`, and read back without rounding.

Layout of `src/`:

- `chars`, `render`, `num_text`: character classes, digit renderings and
  plain number texts;
- `int_parse`, `integer`, `integer_laws`: the integer immediates, their
  parser and formatter, and the proof that reading a text gives back the
  number;
- `bitfield`, `ieee_format`, `ieee_parse`, `ieee`, `ieee_laws`: the
  floating point immediates, `format_float`/`parse_float`, and the proofs
  that reading a text gives back the bit pattern, that negation only flips
  the sign bit, and what the text of a power of two is;
- `digit_facts`: what rendered digit strings read back as;
- `error`: the reasons a text is refused.

`app/` holds the constructors from native `f32`/`f64` values.
