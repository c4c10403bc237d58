use immediates::integer::{Imm64, Offset32, Uimm32};

fn parse_ok_imm64(text: &str, want: &str) {
    match text.parse::<Imm64>() {
        Err(s) => panic!("\"{}\".parse() error: {}", text, s),
        Ok(x) => assert_eq!(x.to_string(), want),
    }
}

fn parse_err_imm64(text: &str, msg: &str) {
    match text.parse::<Imm64>() {
        Err(s) => assert_eq!(s.to_string(), msg),
        Ok(x) => panic!("Wanted Err({}), but got {}", msg, x.to_string()),
    }
}

fn parse_ok_offset32(text: &str, want: &str) {
    match text.parse::<Offset32>() {
        Err(s) => panic!("\"{}\".parse() error: {}", text, s),
        Ok(x) => assert_eq!(x.to_string(), want),
    }
}

fn parse_err_offset32(text: &str, msg: &str) {
    match text.parse::<Offset32>() {
        Err(s) => assert_eq!(s.to_string(), msg),
        Ok(x) => panic!("Wanted Err({}), but got {}", msg, x.to_string()),
    }
}

#[test]
fn format_imm64() {
    assert_eq!(Imm64::new(0).to_string(), "0");
    assert_eq!(Imm64::new(9999).to_string(), "9999");
    assert_eq!(Imm64::new(10000).to_string(), "0x2710");
    assert_eq!(Imm64::new(-9999).to_string(), "-9999");
    assert_eq!(Imm64::new(-10000).to_string(), "0xffff_ffff_ffff_d8f0");
    assert_eq!(Imm64::new(0xffff).to_string(), "0xffff");
    assert_eq!(Imm64::new(0x10000).to_string(), "0x0001_0000");
}

#[test]
fn parse_imm64() {
    parse_ok_imm64("0", "0");
    parse_ok_imm64("1", "1");
    parse_ok_imm64("-0", "0");
    parse_ok_imm64("-1", "-1");
    parse_ok_imm64("0x0", "0");
    parse_ok_imm64("0xf", "15");
    parse_ok_imm64("-0x9", "-9");

    // Probe limits.
    parse_ok_imm64("0xffffffff_ffffffff", "-1");
    parse_ok_imm64("0x80000000_00000000", "0x8000_0000_0000_0000");
    parse_ok_imm64("-0x80000000_00000000", "0x8000_0000_0000_0000");
    parse_err_imm64("-0x80000000_00000001", "Negative number too small");
    parse_ok_imm64("18446744073709551615", "-1");
    parse_ok_imm64("-9223372036854775808", "0x8000_0000_0000_0000");
    // Overflow both the `checked_add` and `checked_mul`.
    parse_err_imm64("18446744073709551616", "Too large decimal number");
    parse_err_imm64("184467440737095516100", "Too large decimal number");
    parse_err_imm64("-9223372036854775809", "Negative number too small");

    // Underscores are allowed where digits go.
    parse_ok_imm64("0_0", "0");
    parse_ok_imm64("-_10_0", "-100");
    parse_ok_imm64("_10_", "10");
    parse_ok_imm64("0x97_88_bb", "0x0097_88bb");
    parse_ok_imm64("0x_97_", "151");

    parse_err_imm64("", "No digits in number");
    parse_err_imm64("-", "No digits in number");
    parse_err_imm64("_", "No digits in number");
    parse_err_imm64("0x", "No digits in number");
    parse_err_imm64("0x_", "No digits in number");
    parse_err_imm64("-0x", "No digits in number");
    parse_err_imm64(" ", "Invalid character in decimal number");
    parse_err_imm64("0 ", "Invalid character in decimal number");
    parse_err_imm64(" 0", "Invalid character in decimal number");
    parse_err_imm64("--", "Invalid character in decimal number");
    parse_err_imm64("-0x-", "Invalid character in hexadecimal number");

    // Hex count overflow.
    parse_err_imm64("0x0_0000_0000_0000_0000", "Too many hexadecimal digits");
}

#[test]
fn format_offset32() {
    assert_eq!(Offset32::new(0).to_string(), "");
    assert_eq!(Offset32::new(1).to_string(), "+1");
    assert_eq!(Offset32::new(-1).to_string(), "-1");
    assert_eq!(Offset32::new(9999).to_string(), "+9999");
    assert_eq!(Offset32::new(10000).to_string(), "+0x2710");
    assert_eq!(Offset32::new(-9999).to_string(), "-9999");
    assert_eq!(Offset32::new(-10000).to_string(), "-0x2710");
    assert_eq!(Offset32::new(0xffff).to_string(), "+0xffff");
    assert_eq!(Offset32::new(0x10000).to_string(), "+0x0001_0000");
}

#[test]
fn parse_offset32() {
    parse_ok_offset32("+0", "");
    parse_ok_offset32("+1", "+1");
    parse_ok_offset32("-0", "");
    parse_ok_offset32("-1", "-1");
    parse_ok_offset32("+0x0", "");
    parse_ok_offset32("+0xf", "+15");
    parse_ok_offset32("-0x9", "-9");
    parse_ok_offset32("-0x8000_0000", "-0x8000_0000");

    parse_err_offset32("+0x8000_0000", "Offset out of range");
}

#[test]
fn uimm32_text_and_range() {
    assert_eq!(Uimm32::new(9999).to_string(), "9999");
    assert_eq!(Uimm32::new(10000).to_string(), "0x2710");
    assert_eq!(Uimm32::new(u32::MAX).to_string(), "0xffff_ffff");
    assert_eq!("0xffff_ffff".parse::<Uimm32>().map(|x| x.value()), Ok(u32::MAX));
    assert_eq!("0x1_0000_0000".parse::<Uimm32>().map(|x| x.value()), Err("Uimm32 out of range"));
    assert_eq!("-1".parse::<Uimm32>().map(|x| x.value()), Err("Uimm32 out of range"));
}
