use firmware_tool::parse::parse_number;
use firmware_tool::parts::FirmwareError;

#[test]
fn hex_and_decimal_spellings_agree() {
    assert_eq!(parse_number("0x40").unwrap(), parse_number("64").unwrap());
    assert_eq!(parse_number("0x40").unwrap(), 64);
    assert_eq!(parse_number("0xff").unwrap(), parse_number("255").unwrap());
    assert_eq!(parse_number("0X2A").unwrap(), parse_number("42").unwrap());
}

#[test]
fn empty_and_blank_fields_parse_as_zero() {
    assert_eq!(parse_number("").unwrap(), 0);
    assert_eq!(parse_number("   ").unwrap(), 0);
    assert_eq!(parse_number("\t \r\n").unwrap(), 0);
}

#[test]
fn fields_are_trimmed() {
    assert_eq!(parse_number("  0x1A  ").unwrap(), 26);
    assert_eq!(parse_number("\t100\n").unwrap(), 100);
}

#[test]
fn hex_prefix_is_case_insensitive() {
    assert_eq!(parse_number("0x1a").unwrap(), 26);
    assert_eq!(parse_number("0X1a").unwrap(), 26);
    assert_eq!(parse_number("0x1A").unwrap(), 26);
}

#[test]
fn zero_parses() {
    assert_eq!(parse_number("0").unwrap(), 0);
    assert_eq!(parse_number("0x0").unwrap(), 0);
}

#[test]
fn malformed_fields_fail() {
    assert!(matches!(parse_number("12z"), Err(FirmwareError::Parse(_))));
    assert!(matches!(parse_number("0x"), Err(FirmwareError::Parse(_))));
    assert!(matches!(parse_number("0xG1"), Err(FirmwareError::Parse(_))));
    assert!(matches!(parse_number("-4"), Err(FirmwareError::Parse(_))));
    assert!(matches!(parse_number("1 2"), Err(FirmwareError::Parse(_))));
}

#[test]
fn a_hex_spelling_without_prefix_is_decimal_only() {
    assert!(matches!(parse_number("1a"), Err(FirmwareError::Parse(_))));
}

#[test]
fn one_leading_plus_sign_is_accepted() {
    assert_eq!(parse_number("+5").unwrap(), 5);
    assert_eq!(parse_number("0x+40").unwrap(), 0x40);
    assert!(matches!(parse_number("++5"), Err(FirmwareError::Parse(_))));
    assert!(matches!(parse_number("+"), Err(FirmwareError::Parse(_))));
    assert!(matches!(parse_number("+0x40"), Err(FirmwareError::Parse(_))));
}

#[test]
fn largest_values_parse_and_overflow_fails() {
    assert_eq!(parse_number("18446744073709551615").unwrap(), u64::MAX);
    assert_eq!(parse_number("0xFFFFFFFFFFFFFFFF").unwrap(), u64::MAX);
    assert!(matches!(
        parse_number("18446744073709551616"),
        Err(FirmwareError::Parse(_))
    ));
    assert!(matches!(
        parse_number("0x10000000000000000"),
        Err(FirmwareError::Parse(_))
    ));
}
