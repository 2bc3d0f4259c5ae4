use firmware_tool::config::parse_config;
use firmware_tool::resolve::calculate_sizes;

#[test]
fn adjacent_offsets_and_image_size_resolve_missing_sizes() {
    let mut parts = parse_config("A, 0\nB, 0x40\nC, 0x100\n").unwrap();
    let file_sizes = vec![None, None, None];
    let warn = calculate_sizes(&mut parts, true, 0x200, &file_sizes);
    assert!(warn.is_none());
    assert_eq!(parts[0].size, 0x40);
    assert_eq!(parts[1].size, 0xC0);
    assert_eq!(parts[2].size, 0x100);
}

#[test]
fn explicit_sizes_are_never_recomputed() {
    let mut parts = parse_config("A, 0, 0x10\nB, 0x40, 0x8\n").unwrap();
    let file_sizes = vec![None, None];
    let warn = calculate_sizes(&mut parts, true, 0x200, &file_sizes);
    assert!(warn.is_none());
    assert_eq!(parts[0].size, 0x10);
    assert_eq!(parts[1].size, 0x8);
}

#[test]
fn packing_takes_the_last_part_size_from_its_file() {
    let mut parts = parse_config("A, 0\nB, 0x40\n").unwrap();
    let file_sizes = vec![None, Some(123)];
    let warn = calculate_sizes(&mut parts, false, 0, &file_sizes);
    assert!(warn.is_none());
    assert_eq!(parts[0].size, 0x40);
    assert_eq!(parts[1].size, 123);
}

#[test]
fn packing_without_a_file_for_the_last_part_warns() {
    let mut parts = parse_config("A, 0\nB, 0x40\n").unwrap();
    let file_sizes = vec![None, None];
    let warn = calculate_sizes(&mut parts, false, 0, &file_sizes);
    assert_eq!(warn, Some(1));
    assert_eq!(parts[1].size, 0);
}

#[test]
fn unpack_with_unknown_image_size_leaves_the_last_part_at_zero() {
    let mut parts = parse_config("A, 0\n").unwrap();
    let file_sizes = vec![None];
    let warn = calculate_sizes(&mut parts, true, 0, &file_sizes);
    assert!(warn.is_none());
    assert_eq!(parts[0].size, 0);
}

#[test]
fn resolution_keeps_every_other_field() {
    let mut parts = parse_config("A, 0, , 0x11\nB, 0x40\n").unwrap();
    let file_sizes = vec![None, None];
    let _ = calculate_sizes(&mut parts, true, 0x80, &file_sizes);
    assert_eq!(parts[0].name, "A");
    assert_eq!(parts[0].offset, 0);
    assert_eq!(parts[0].padding_byte, 0x11);
    assert!(parts[0].use_custom_padding);
    assert!(!parts[0].has_explicit_size);
    assert_eq!(parts[0].size, 0x40);
    assert_eq!(parts[1].size, 0x40);
}

#[test]
fn a_misordered_layout_keeps_its_wrapped_size() {
    // The adjacency rule subtracts offsets without a bounds check; a
    // misordered layout silently yields a wrapped (invalid) size.
    let mut parts = parse_config("A, 0x100\nB, 0x40, 1\n").unwrap();
    let file_sizes = vec![None, None];
    let _ = calculate_sizes(&mut parts, true, 0x200, &file_sizes);
    assert_eq!(parts[0].size, u64::MAX - 0xC0 + 1);
}
