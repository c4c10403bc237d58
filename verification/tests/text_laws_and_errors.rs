use immediates::error::ParseError;
use immediates::ieee::{Ieee32, Ieee64};
use immediates::integer::{Imm64, Offset32, Uimm32};

#[test]
fn imm64_text_roundtrip_values() {
    for &x in &[
        0i64,
        1,
        -1,
        9999,
        -9999,
        10000,
        -10000,
        0xffff,
        0x10000,
        0x1234_5678_9abc,
        i64::MAX,
        i64::MIN,
        i64::MIN + 1,
    ] {
        let text = Imm64::new(x).to_string();
        assert_eq!(Imm64::parse(&text).map(|v| v.value()), Ok(x), "text {}", text);
    }
}

#[test]
fn imm64_text_formula() {
    assert_eq!(Imm64::new(i64::MAX).to_string(), "0x7fff_ffff_ffff_ffff");
    assert_eq!(Imm64::new(i64::MIN).to_string(), "0x8000_0000_0000_0000");
    assert_eq!(Imm64::new(0x1_0000_0000).to_string(), "0x0001_0000_0000");
    assert_eq!(Imm64::new(0x1234_5678_9abc).to_string(), "0x1234_5678_9abc");
}

#[test]
fn uimm32_text_roundtrip_values() {
    for &x in &[0u32, 9999, 10000, 0xffff, 0x10000, u32::MAX] {
        let text = Uimm32::new(x).to_string();
        assert_eq!(Uimm32::parse(&text).map(|v| v.value()), Ok(x), "text {}", text);
    }
}

#[test]
fn offset32_text_roundtrip_values() {
    for &x in &[1i32, -1, 9999, -10000, i32::MAX, i32::MIN] {
        let text = Offset32::new(x).to_string();
        assert_eq!(Offset32::parse(&text).map(|v| v.value()), Ok(x), "text {}", text);
    }
    // Zero has the empty text, which does not read back.
    assert_eq!(Offset32::new(0).to_string(), "");
    assert_eq!(Offset32::parse(""), Err(ParseError::OffsetWithoutSign));
}

#[test]
fn integer_errors() {
    assert_eq!(Imm64::parse("0x1_0000_0000_0000_0000"), Err(ParseError::TooManyHexadecimalDigits));
    assert_eq!(Imm64::parse("0x1g"), Err(ParseError::InvalidHexadecimalCharacter));
    assert_eq!(Imm64::parse("99999999999999999999"), Err(ParseError::TooLargeDecimal));
    assert_eq!(Imm64::parse("12.5"), Err(ParseError::InvalidDecimalCharacter));
    assert_eq!(Imm64::parse("+"), Err(ParseError::NoDigitsInNumber));
    assert_eq!(Imm64::parse("-9223372036854775809"), Err(ParseError::NegativeTooSmall));
    assert_eq!(Uimm32::parse("4294967296"), Err(ParseError::Uimm32OutOfRange));
    assert_eq!(Offset32::parse("5"), Err(ParseError::OffsetWithoutSign));
    assert_eq!(Offset32::parse("-2147483649"), Err(ParseError::OffsetOutOfRange));
    assert_eq!(ParseError::OffsetOutOfRange.message(), "Offset out of range");
}

#[test]
fn integer_quirks() {
    // Without `0x` only decimal digits are allowed.
    assert_eq!(Imm64::parse("1a"), Err(ParseError::InvalidDecimalCharacter));
    assert_eq!("1a".parse::<Imm64>().map(|v| v.value()), Err("Invalid character in decimal number"));
    assert_eq!(Imm64::parse("+5").map(|v| v.value()), Ok(5));
    assert_eq!(Imm64::parse("0xAbC").map(|v| v.value()), Ok(0xabc));
    assert_eq!(Imm64::parse("-0").map(|v| v.value()), Ok(0));
}

#[test]
fn integer_conversions() {
    let x: i64 = Imm64::new(-5).into();
    assert_eq!(x, -5);
    assert_eq!(Imm64::from(7).value(), 7);
    let y: u32 = Uimm32::from(9).into();
    assert_eq!(y, 9);
    let z: i64 = Uimm32::new(u32::MAX).into();
    assert_eq!(z, 4294967295);
    let o: i32 = Offset32::from(-3).into();
    assert_eq!(o, -3);
    let o64: i64 = Offset32::new(i32::MIN).into();
    assert_eq!(o64, -2147483648);
}

fn ieee32_samples() -> Vec<u32> {
    let mut v = vec![
        0, 0x8000_0000, 1, 0x8000_0001, 0x007f_ffff, 0x0080_0000, 0x3f80_0000, 0xbf80_0000,
        0x7f7f_ffff, 0x7f80_0000, 0xff80_0000, 0x7fc0_0000, 0xffc0_0000, 0x7fc0_0001,
        0x7f80_0001, 0x7fbf_ffff, 0x7fff_ffff, 0x0040_0000, 0x1234_5678, 0x8765_4321,
    ];
    let mut x: u32 = 0x9e37_79b9;
    for _ in 0..500 {
        x = x.wrapping_mul(1_664_525).wrapping_add(1_013_904_223);
        v.push(x);
    }
    v
}

fn ieee64_samples() -> Vec<u64> {
    let mut v = vec![
        0,
        0x8000_0000_0000_0000,
        1,
        0x000f_ffff_ffff_ffff,
        0x0010_0000_0000_0000,
        0x3ff0_0000_0000_0000,
        0x7fef_ffff_ffff_ffff,
        0x7ff0_0000_0000_0000,
        0xfff0_0000_0000_0000,
        0x7ff8_0000_0000_0000,
        0x7ff8_0000_0000_0001,
        0x7ff0_0000_0000_0001,
        0xffff_ffff_ffff_ffff,
    ];
    let mut x: u64 = 0x9e37_79b9_7f4a_7c15;
    for _ in 0..500 {
        x = x.wrapping_mul(6_364_136_223_846_793_005).wrapping_add(1_442_695_040_888_963_407);
        v.push(x);
    }
    v
}

#[test]
fn ieee32_text_roundtrip_values() {
    for bits in ieee32_samples() {
        let text = Ieee32::with_bits(bits).to_string();
        assert_eq!(Ieee32::parse(&text).map(|v| v.bits()), Ok(bits), "text {}", text);
    }
}

#[test]
fn ieee64_text_roundtrip_values() {
    for bits in ieee64_samples() {
        let text = Ieee64::with_bits(bits).to_string();
        assert_eq!(Ieee64::parse(&text).map(|v| v.bits()), Ok(bits), "text {}", text);
    }
}

#[test]
fn ieee_neg_flips_sign_only() {
    for bits in ieee32_samples() {
        let x = Ieee32::with_bits(bits);
        assert_eq!(x.neg().bits(), bits ^ 0x8000_0000);
        assert_eq!(x.neg().neg().bits(), bits);
    }
    for bits in ieee64_samples() {
        let x = Ieee64::with_bits(bits);
        assert_eq!(x.neg().bits(), bits ^ 0x8000_0000_0000_0000);
        assert_eq!(x.neg().neg().bits(), bits);
    }
    assert_eq!(Ieee32::with_bits(0x7f80_0000).neg().to_string(), "-Inf");
    assert_eq!(Ieee64::with_bits(0).neg().to_string(), "-0.0");
}

#[test]
fn ieee_pow2_values() {
    for n in -126..=127 {
        assert_eq!(Ieee32::pow2(n).to_string(), format!("0x1.000000p{}", n));
        assert_eq!(Ieee32::pow2(n).bits(), ((n + 127) as u32) << 23);
    }
    for n in -1022..=1023i64 {
        assert_eq!(Ieee64::pow2(n).to_string(), format!("0x1.0000000000000p{}", n));
    }
}

#[test]
fn float_errors() {
    assert_eq!(Ieee32::parse("1.0"), Err(ParseError::FloatNotHexadecimal));
    assert_eq!(Ieee32::parse("NaN:0x400000"), Err(ParseError::InvalidNanPayload));
    assert_eq!(Ieee32::parse("sNaN:0x"), Err(ParseError::InvalidSnanPayload));
    assert_eq!(Ieee32::parse("0x1.2.3"), Err(ParseError::MultipleRadixPoints));
    assert_eq!(Ieee32::parse("0x1p"), Err(ParseError::BadExponent));
    assert_eq!(Ieee32::parse("0x1p40000"), Err(ParseError::BadExponent));
    assert_eq!(Ieee32::parse("0x11111111111111111"), Err(ParseError::TooManyDigits));
    assert_eq!(Ieee32::parse("0x1P3"), Err(ParseError::InvalidCharacter));
    assert_eq!(Ieee32::parse("-0x."), Err(ParseError::NoDigits));
    assert_eq!(Ieee32::parse("0x1.000001"), Err(ParseError::TooManySignificantBits));
    assert_eq!(Ieee32::parse("0x1p128"), Err(ParseError::MagnitudeTooLarge));
    assert_eq!(Ieee32::parse("0x3p-150"), Err(ParseError::SubnormalUnderflow));
    assert_eq!(Ieee32::parse("0x1p-150"), Err(ParseError::MagnitudeTooSmall));
    assert_eq!(Ieee64::parse("0x1p1024"), Err(ParseError::MagnitudeTooLarge));
}

#[test]
fn float_quirks() {
    // The exponent may carry a `+` sign, and so may a NaN payload.
    assert_eq!(Ieee32::parse("0x1p+3").map(|v| v.to_string()), Ok("0x1.000000p3".to_string()));
    assert_eq!(Ieee32::parse("NaN:0x+1").map(|v| v.to_string()), Ok("+NaN:0x1".to_string()));
    assert_eq!(Ieee32::parse("NaN:0xA").map(|v| v.bits()), Ok(0x7fc0_000a));
    assert_eq!(Ieee32::parse("-0x0").map(|v| v.bits()), Ok(0x8000_0000));
    assert_eq!(Ieee64::parse("0x8p-3").map(|v| v.bits()), Ok(0x3ff0_0000_0000_0000));
}

#[test]
fn underscore_insertion_changes_nothing() {
    for text in &["123", "-0x8000", "+45", "0xdead_beef", "-9223372036854775808", "1a", "0x", "12z"] {
        let chars: Vec<char> = text.chars().collect();
        let sign = if chars.first().map_or(false, |c| *c == '-' || *c == '+') { 1 } else { 0 };
        let hex = chars.len() >= sign + 2 && chars[sign] == '0' && chars[sign + 1] == 'x';
        let first = sign + if hex { 2 } else { 0 };
        for k in first..=chars.len() {
            let mut with: Vec<char> = chars.clone();
            with.insert(k, '_');
            let with: String = with.into_iter().collect();
            assert_eq!(Imm64::parse(&with), Imm64::parse(text), "{} vs {}", with, text);
        }
    }
}

#[test]
fn float_sign_prefix() {
    for text in &["0x1.8p3", "0.0", "Inf", "NaN", "NaN:0x5", "sNaN:0x1", "0x1p-149", "0x1p200", "x", ""] {
        let plain32 = Ieee32::parse(text).map(|v| v.bits());
        assert_eq!(Ieee32::parse(&format!("+{}", text)).map(|v| v.bits()), plain32);
        assert_eq!(Ieee32::parse(&format!("-{}", text)).map(|v| v.bits()), plain32.map(|b| b | 0x8000_0000));
        let plain64 = Ieee64::parse(text).map(|v| v.bits());
        assert_eq!(Ieee64::parse(&format!("+{}", text)).map(|v| v.bits()), plain64);
        assert_eq!(
            Ieee64::parse(&format!("-{}", text)).map(|v| v.bits()),
            plain64.map(|b| b | 0x8000_0000_0000_0000)
        );
    }
}

#[test]
fn uimm8_is_a_byte() {
    let lane: immediates::integer::Uimm8 = 7;
    assert_eq!(lane, 7u8);
}
