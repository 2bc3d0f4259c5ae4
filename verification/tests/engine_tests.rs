use firmware_tool::engine::{pack_image, unpack_part};
use firmware_tool::parts::FirmwarePart;
use sha2::{Digest, Sha256};

fn sha256_hex_of(bytes: &[u8]) -> String {
    format!("{:x}", Sha256::digest(bytes))
}

fn part(name: &str, offset: u64, size: u64, padding_byte: u8) -> FirmwarePart {
    FirmwarePart {
        name: name.to_string(),
        offset,
        size,
        padding_byte,
        use_custom_padding: true,
        has_explicit_size: true,
    }
}

#[test]
fn a_short_input_is_padded_and_the_digest_covers_the_whole_region() {
    let parts = vec![part("a", 0, 16, 0x00)];
    let input: Vec<u8> = (1..=10).collect();
    let files = vec![Some(input.clone())];
    let (image, reports) = pack_image(&parts, &files);

    let mut expected = input.clone();
    expected.extend(std::iter::repeat(0x00).take(6));
    assert_eq!(image, expected);

    let rep = reports[0].as_ref().unwrap();
    assert_eq!(rep.written, 10);
    assert_eq!(rep.padded, 6);
    assert_eq!(rep.digest, sha256_hex_of(&expected));
}

#[test]
fn a_missing_input_leaves_the_region_at_the_fill_byte() {
    let parts = vec![part("a", 0, 4, 0x00), part("b", 4, 4, 0x00)];
    let files = vec![Some(vec![1, 2, 3, 4]), None];
    let (image, reports) = pack_image(&parts, &files);
    assert_eq!(image, vec![1, 2, 3, 4, 0xFF, 0xFF, 0xFF, 0xFF]);
    assert!(reports[0].is_some());
    assert!(reports[1].is_none());
}

#[test]
fn a_long_input_is_capped_at_the_part_size() {
    let parts = vec![part("a", 0, 3, 0x00)];
    let files = vec![Some(vec![9, 8, 7, 6, 5])];
    let (image, reports) = pack_image(&parts, &files);
    assert_eq!(image, vec![9, 8, 7]);
    let rep = reports[0].as_ref().unwrap();
    assert_eq!(rep.written, 3);
    assert_eq!(rep.padded, 0);
    assert_eq!(rep.digest, sha256_hex_of(&[9, 8, 7]));
}

#[test]
fn packing_nothing_yields_an_empty_image() {
    let parts: Vec<FirmwarePart> = Vec::new();
    let files: Vec<Option<Vec<u8>>> = Vec::new();
    let (image, reports) = pack_image(&parts, &files);
    assert!(image.is_empty());
    assert!(reports.is_empty());
}

#[test]
fn a_gap_between_parts_keeps_the_fill_byte() {
    let parts = vec![part("a", 0, 2, 0x00), part("b", 6, 2, 0x00)];
    let files = vec![Some(vec![1, 2]), Some(vec![3, 4])];
    let (image, _) = pack_image(&parts, &files);
    assert_eq!(image, vec![1, 2, 0xFF, 0xFF, 0xFF, 0xFF, 3, 4]);
}

#[test]
fn unpacking_copies_the_exact_range_and_digest() {
    let image: Vec<u8> = (0..32).collect();
    let p = part("mid", 8, 8, 0xFF);
    let (bytes, digest) = unpack_part(&image, &p);
    let expected: Vec<u8> = (8..16).collect();
    assert_eq!(bytes, expected);
    assert_eq!(digest, sha256_hex_of(&expected));
}

#[test]
fn unpacking_a_truncated_image_stops_early_without_error() {
    let image: Vec<u8> = (0..10).collect();
    let p = part("tail", 6, 16, 0xFF);
    let (bytes, digest) = unpack_part(&image, &p);
    let expected: Vec<u8> = (6..10).collect();
    assert_eq!(bytes, expected);
    assert_eq!(digest, sha256_hex_of(&expected));
}

#[test]
fn unpacking_past_the_end_of_the_image_yields_nothing() {
    let image: Vec<u8> = vec![1, 2, 3];
    let p = part("gone", 100, 4, 0xFF);
    let (bytes, digest) = unpack_part(&image, &p);
    assert!(bytes.is_empty());
    assert_eq!(digest, sha256_hex_of(&[]));
}

#[test]
fn pack_then_unpack_then_pack_is_identity() {
    let parts = vec![
        part("boot", 0, 4, 0xFF),
        part("conf", 4, 3, 0xFF),
        part("data", 10, 5, 0xFF),
    ];
    let files = vec![
        Some(vec![0xDE, 0xAD, 0xBE, 0xEF]),
        Some(vec![1, 2, 3]),
        Some(vec![10, 20, 30, 40, 50]),
    ];
    let (image, _) = pack_image(&parts, &files);

    let mut extracted: Vec<Option<Vec<u8>>> = Vec::new();
    for p in &parts {
        let (bytes, _) = unpack_part(&image, p);
        extracted.push(Some(bytes));
    }
    assert_eq!(extracted, files);

    let (image2, _) = pack_image(&parts, &extracted);
    assert_eq!(image2, image);
}
