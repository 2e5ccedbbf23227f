//! Writing CBOR items and collecting the strings of a document.
use ukmmsg2json::cbor::{
    cbor_write_map_header, cbor_write_text, extract_cbor_strings, looks_like_cbor,
};

/// CBOR maps (major type 5) have the high 3 bits = `0b101`.
#[test]
fn test_looks_like_cbor_map() {
    // A0 = map with 0 entries -> should match.
    assert!(looks_like_cbor(&[0xA0]));
    // A1 = map with 1 entry.
    assert!(looks_like_cbor(&[0xA1]));
    // B8 = map header with 1-byte length prefix (25 entries).
    assert!(looks_like_cbor(&[0xB8, 0x19]));

    // Non-map bytes and empty input should not match.
    assert!(!looks_like_cbor(&[]));
    assert!(!looks_like_cbor(b"SARCxxxx"));
    assert!(!looks_like_cbor(&[0x80])); // array
    assert!(!looks_like_cbor(&[0x60])); // empty text string
}

/// Strings of up to 23 bytes: encoded inline as 0x60 | len.
#[test]
fn test_cbor_write_text_short() {
    let mut buf = Vec::new();
    cbor_write_text(&mut buf, "hello");
    // 0x65 = 0x60 | 5 (length)
    assert_eq!(buf, [0x65, b'h', b'e', b'l', b'l', b'o']);
}

/// Strings of exactly 24 bytes: 0x78 prefix + 1-byte length.
#[test]
fn test_cbor_write_text_24_byte() {
    let s = "a".repeat(24);
    let mut buf = Vec::new();
    cbor_write_text(&mut buf, &s);
    assert_eq!(buf[0], 0x78);
    assert_eq!(buf[1], 24);
    assert_eq!(&buf[2..], s.as_bytes());
}

/// Strings of 256 bytes: 0x79 prefix + 2-byte big-endian length.
#[test]
fn test_cbor_write_text_256_byte() {
    let s = "b".repeat(256);
    let mut buf = Vec::new();
    cbor_write_text(&mut buf, &s);
    assert_eq!(buf[0], 0x79);
    assert_eq!(buf[1], 0x01); // 256 big-endian high byte
    assert_eq!(buf[2], 0x00); // 256 big-endian low byte
    assert_eq!(&buf[3..], s.as_bytes());
}

/// Strings > 65535 bytes: 0x7A prefix + 4-byte big-endian length.
#[test]
fn test_cbor_write_text_u32() {
    let s = "c".repeat(70_000);
    let mut buf = Vec::new();
    cbor_write_text(&mut buf, &s);
    assert_eq!(buf[0], 0x7A);
    let len = u32::from_be_bytes([buf[1], buf[2], buf[3], buf[4]]);
    assert_eq!(len, 70_000);
}

/// The longest text with an inline length, and texts that are appended.
#[test]
fn text_is_appended() {
    let s = "d".repeat(23);
    let mut buf = vec![0xA1];
    cbor_write_text(&mut buf, &s);
    assert_eq!(buf[..2], [0xA1, 0x77]);
    assert_eq!(&buf[2..], s.as_bytes());

    let s = "e".repeat(255);
    let mut buf = Vec::new();
    cbor_write_text(&mut buf, &s);
    assert_eq!(buf[..2], [0x78, 0xFF]);
}

/// The length is that of the UTF-8 encoding.
#[test]
fn text_length_counts_bytes() {
    let mut buf = Vec::new();
    cbor_write_text(&mut buf, "\u{e9}");
    assert_eq!(buf, [0x62, 0xC3, 0xA9]);
}

/// Small map headers: length encoded inline.
#[test]
fn test_cbor_write_map_header_small() {
    let mut buf = Vec::new();
    cbor_write_map_header(&mut buf, 3);
    assert_eq!(buf, [0xA3]); // 0xA0 | 3
}

/// Map headers with 1-byte length prefix (24-255 entries).
#[test]
fn test_cbor_write_map_header_u8() {
    let mut buf = Vec::new();
    cbor_write_map_header(&mut buf, 100);
    assert_eq!(buf, [0xB8, 100]);
}

/// Map headers with 2-byte length prefix (256-65535 entries).
#[test]
fn test_cbor_write_map_header_u16() {
    let mut buf = Vec::new();
    cbor_write_map_header(&mut buf, 500);
    assert_eq!(buf, [0xB9, 0x01, 0xF4]);
}

/// Map headers with 4-byte length prefix (>65535 entries).
#[test]
fn test_cbor_write_map_header_u32() {
    let mut buf = Vec::new();
    cbor_write_map_header(&mut buf, 100_000);
    assert_eq!(buf, [0xBA, 0x00, 0x01, 0x86, 0xA0]);
}

/// Map headers with 8-byte length prefix.
#[test]
fn map_header_u64() {
    let mut buf = Vec::new();
    cbor_write_map_header(&mut buf, 0x1_0000_0002);
    assert_eq!(buf, [0xBB, 0, 0, 0, 1, 0, 0, 0, 2]);
}

/// Empty input should produce no strings.
#[test]
fn test_extract_cbor_strings_empty() {
    let strings = extract_cbor_strings(&[]);
    assert!(strings.is_empty());
}

/// Two consecutive short CBOR text strings.
#[test]
fn test_extract_cbor_strings_simple() {
    // 0x63 = text, 3 bytes -> "foo"; then "bar".
    let data = &[0x63, b'f', b'o', b'o', 0x63, b'b', b'a', b'r'];
    let strings = extract_cbor_strings(data);
    assert_eq!(strings, vec!["foo", "bar"]);
}

/// CBOR string with 1-byte length prefix (24 bytes).
#[test]
fn test_extract_cbor_strings_24byte_len() {
    let payload = "x".repeat(24);
    let mut data = vec![0x78, 24]; // 0x78 = text, 1-byte length.
    data.extend_from_slice(payload.as_bytes());
    let strings = extract_cbor_strings(&data);
    assert_eq!(strings, vec![payload]);
}

/// CBOR string with 2-byte length prefix (300 bytes).
#[test]
fn test_extract_cbor_strings_u16_len() {
    let payload = "y".repeat(300);
    let mut data = vec![0x79];
    data.extend_from_slice(&(300u16).to_be_bytes());
    data.extend_from_slice(payload.as_bytes());
    let strings = extract_cbor_strings(&data);
    assert_eq!(strings, vec![payload]);
}

/// CBOR string with 4-byte length prefix (70_000 bytes).
#[test]
fn test_extract_cbor_strings_u32_len() {
    let payload = "z".repeat(70_000);
    let mut data = vec![0x7A];
    data.extend_from_slice(&(70_000u32).to_be_bytes());
    data.extend_from_slice(payload.as_bytes());
    let strings = extract_cbor_strings(&data);
    assert_eq!(strings, vec![payload]);
}

/// Empty CBOR text string (0x60): should be skipped (not pushed).
#[test]
fn test_extract_cbor_strings_skips_empty() {
    // 0x60 = text, 0 bytes -> skip; then "abc".
    let data = &[0x60, 0x63, b'a', b'b', b'c'];
    let strings = extract_cbor_strings(data);
    assert_eq!(strings, vec!["abc"]); // Empty string is not included.
}

/// CBOR byte string (major type 2) treated as UTF-8 text.
#[test]
fn test_extract_cbor_strings_byte_string() {
    // 0x45 = byte string, 5 bytes -> "hello".
    let data = &[0x45, b'h', b'e', b'l', b'l', b'o'];
    let strings = extract_cbor_strings(data);
    assert_eq!(strings, vec!["hello"]);
}

/// Strings nested inside a CBOR map should still be extracted.
#[test]
fn test_extract_cbor_strings_within_map() {
    // A1 = map(1), key="key" (0x63), value="value" (0x65).
    let data = &[
        0xA1, // map header (1 entry)
        0x63, b'k', b'e', b'y', // key: "key"
        0x65, b'v', b'a', b'l', b'u', b'e', // value: "value"
    ];
    let strings = extract_cbor_strings(data);
    // Both key and value strings are extracted, regardless of nesting.
    assert!(strings.contains(&"key".to_string()));
    assert!(strings.contains(&"value".to_string()));
}

/// Map header bytes (0xB8) should be skipped, not treated as string data.
#[test]
fn test_extract_cbor_strings_map_header_skipped() {
    // B8 19 = map header (25 entries), followed by "foo".
    let data = &[
        0xB8, 25, // map header (skipped)
        0x63, b'f', b'o', b'o', // text: "foo"
    ];
    let strings = extract_cbor_strings(data);
    assert_eq!(strings, vec!["foo"]);
}

/// Round-trip: encode a string with `cbor_write_text`, then decode with
/// `extract_cbor_strings`. The decoded string should match the original.
#[test]
fn test_cbor_write_text_roundtrip() {
    let s24 = "a".repeat(24);
    let s300 = "b".repeat(300);

    let inputs = ["a", "hello", &s24, &s300];
    for s in inputs {
        let mut buf = Vec::new();
        cbor_write_text(&mut buf, s);
        let strings = extract_cbor_strings(&buf);
        assert_eq!(strings, vec![s.to_string()], "roundtrip failed for len={}", s.len());
    }
}

/// Numbers, tags, floats and arrays are passed over with their arguments.
#[test]
fn other_items_are_passed_over() {
    let data = &[
        0x18, 0x61, // uint with a 1-byte argument
        0x39, 0x61, 0x61, // negative int with a 2-byte argument
        0xC1, // tag
        0xDA, 0x61, 0x61, 0x61, 0x61, // tag with a 4-byte argument
        0xFB, 0x61, 0x61, 0x61, 0x61, 0x61, 0x61, 0x61, 0x61, // double
        0x82, // array of 2
        0x61, b'x', // text
        0xF6, // null
        0x61, b'y', // text
    ];
    assert_eq!(extract_cbor_strings(data), vec!["x", "y"]);
}

/// Of a string of reserved or indefinite length only the initial byte is
/// passed over.
#[test]
fn unusable_lengths_are_passed_over() {
    assert_eq!(extract_cbor_strings(&[0x7C, 0x61, b'a']), vec!["a"]);
    assert_eq!(extract_cbor_strings(&[0x7F, 0x61, b'b']), vec!["b"]);
    // The length itself is cut off.
    assert_eq!(extract_cbor_strings(&[0x61, b'c', 0x79, 0x01]), vec!["c"]);
}

/// Of a string that is too long only the head is passed over.
#[test]
fn too_long_strings_are_passed_over() {
    // 104857601 bytes, one more than the limit.
    let data = &[0x7A, 0x06, 0x40, 0x00, 0x01, 0x61, b'a'];
    assert_eq!(extract_cbor_strings(data), vec!["a"]);
    // At the limit the string is merely incomplete, and takes up the rest.
    let data = &[0x7A, 0x06, 0x40, 0x00, 0x00, 0x61, b'a'];
    assert!(extract_cbor_strings(data).is_empty());
    // An 8-byte length.
    let data = &[0x7B, 0xFF, 0xFF, 0xFF, 0xFF, 0xFF, 0xFF, 0xFF, 0xFF, 0x61, b'a'];
    assert_eq!(extract_cbor_strings(data), vec!["a"]);
    let data = &[0x7B, 0, 0, 0, 0, 0, 0, 0, 1, b'z', 0x61, b'a'];
    assert_eq!(extract_cbor_strings(data), vec!["z", "a"]);
}

/// A string that is not UTF-8 is left out, with its contents.
#[test]
fn invalid_utf8_is_left_out() {
    let data = &[0x62, 0xFF, 0x61, 0x61, b'a'];
    assert_eq!(extract_cbor_strings(data), vec!["a"]);
    // UTF-8 of more than one byte per character.
    assert_eq!(extract_cbor_strings(&[0x62, 0xC3, 0xA9]), vec!["\u{e9}"]);
}

/// A string whose contents are cut off ends the document.
#[test]
fn incomplete_string_ends_the_document() {
    assert_eq!(extract_cbor_strings(&[0x61, b'a', 0x65, 0x61, b'b']), vec!["a"]);
}
