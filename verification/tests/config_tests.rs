use firmware_tool::config::parse_config;
use firmware_tool::parts::FirmwareError;

#[test]
fn a_full_description_parses_in_order() {
    let text = "# firmware layout\n\
                header, 0x0, 0x40\n\
                kernel, 0x40, , 0x00\n\
                \n\
                rootfs, 0x200040\n";
    let parts = parse_config(text).unwrap();
    assert_eq!(parts.len(), 3);

    assert_eq!(parts[0].name, "header");
    assert_eq!(parts[0].offset, 0x0);
    assert_eq!(parts[0].size, 0x40);
    assert!(parts[0].has_explicit_size);
    assert!(!parts[0].use_custom_padding);
    assert_eq!(parts[0].padding_byte, 0xFF);

    assert_eq!(parts[1].name, "kernel");
    assert_eq!(parts[1].offset, 0x40);
    assert_eq!(parts[1].size, 0);
    assert!(!parts[1].has_explicit_size);
    assert!(parts[1].use_custom_padding);
    assert_eq!(parts[1].padding_byte, 0x00);

    assert_eq!(parts[2].name, "rootfs");
    assert_eq!(parts[2].offset, 0x200040);
    assert!(!parts[2].has_explicit_size);
    assert_eq!(parts[2].padding_byte, 0xFF);
}

#[test]
fn names_and_fields_are_trimmed() {
    let parts = parse_config("  boot , 0x10 , 0x20 \n").unwrap();
    assert_eq!(parts.len(), 1);
    assert_eq!(parts[0].name, "boot");
    assert_eq!(parts[0].offset, 0x10);
    assert_eq!(parts[0].size, 0x20);
}

#[test]
fn short_lines_and_comments_are_skipped() {
    let text = "# comment\nloner\n\n   \na, 1\n";
    let parts = parse_config(text).unwrap();
    assert_eq!(parts.len(), 1);
    assert_eq!(parts[0].name, "a");
    assert_eq!(parts[0].offset, 1);
}

#[test]
fn carriage_returns_are_stripped() {
    let parts = parse_config("a, 1\r\nb, 2\r\n").unwrap();
    assert_eq!(parts.len(), 2);
    assert_eq!(parts[0].name, "a");
    assert_eq!(parts[1].name, "b");
    assert_eq!(parts[1].offset, 2);
}

#[test]
fn a_description_without_trailing_newline_parses() {
    let parts = parse_config("a, 1\nb, 2").unwrap();
    assert_eq!(parts.len(), 2);
    assert_eq!(parts[1].offset, 2);
}

#[test]
fn padding_takes_the_low_eight_bits() {
    let parts = parse_config("a, 0, 1, 0x1FF\n").unwrap();
    assert_eq!(parts[0].padding_byte, 0xFF);
    assert!(parts[0].use_custom_padding);

    let parts = parse_config("a, 0, 1, 256\n").unwrap();
    assert_eq!(parts[0].padding_byte, 0x00);
}

#[test]
fn a_blank_size_field_is_unresolved() {
    let parts = parse_config("a, 4, \n").unwrap();
    assert_eq!(parts[0].size, 0);
    assert!(!parts[0].has_explicit_size);
}

#[test]
fn a_malformed_offset_aborts_the_whole_parse() {
    assert!(matches!(
        parse_config("a, 1\nb, zz\nc, 3\n"),
        Err(FirmwareError::Parse(_))
    ));
}

#[test]
fn a_malformed_size_or_padding_aborts() {
    assert!(matches!(
        parse_config("a, 1, bogus\n"),
        Err(FirmwareError::Parse(_))
    ));
    assert!(matches!(
        parse_config("a, 1, 2, bogus\n"),
        Err(FirmwareError::Parse(_))
    ));
}

#[test]
fn an_empty_description_has_no_parts() {
    let parts = parse_config("").unwrap();
    assert_eq!(parts.len(), 0);
}
