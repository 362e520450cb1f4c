use vdf_parser::error::VdfError;
use vdf_parser::keyvalue::KeyValue;
use vdf_parser::{read_shortcuts, write_shortcuts};

fn text(s: &str) -> KeyValue {
    KeyValue::Text(s.to_string())
}

fn entry(k: &str, v: KeyValue) -> (String, KeyValue) {
    (k.to_string(), v)
}

fn one_shortcut() -> KeyValue {
    KeyValue::Object(vec![entry(
        "0",
        KeyValue::Object(vec![
            entry("appid", KeyValue::UInt32(123)),
            entry("AppName", text("Foo")),
            entry("tags", KeyValue::Object(vec![])),
        ]),
    )])
}

#[test]
fn shortcut_entry_round_trips() {
    let tree = one_shortcut();
    let bytes = write_shortcuts(&tree).unwrap();
    let back = read_shortcuts(&bytes).unwrap();
    assert_eq!(back, tree);
}

#[test]
fn shortcut_encoding_is_byte_exact() {
    let tree = KeyValue::Object(vec![entry("a", KeyValue::UInt32(0x0102_0304)), entry("b", text("x"))]);
    let bytes = write_shortcuts(&tree).unwrap();
    let mut expected: Vec<u8> = vec![0x00];
    expected.extend_from_slice(b"shortcuts\0");
    expected.extend_from_slice(&[0x02, b'a', 0, 0x04, 0x03, 0x02, 0x01]);
    expected.extend_from_slice(&[0x01, b'b', 0, b'x', 0]);
    expected.extend_from_slice(&[0x08, 0x08]);
    assert_eq!(bytes, expected);
}

#[test]
fn nested_maps_round_trip() {
    let tree = KeyValue::Object(vec![
        entry("0", KeyValue::Object(vec![entry("inner", KeyValue::Object(vec![entry("deep", text("v"))]))])),
        entry("1", KeyValue::Object(vec![entry("n", KeyValue::UInt32(u32::MAX))])),
    ]);
    let bytes = write_shortcuts(&tree).unwrap();
    assert_eq!(read_shortcuts(&bytes).unwrap(), tree);
}

#[test]
fn empty_root_round_trips() {
    let tree = KeyValue::Object(vec![]);
    let bytes = write_shortcuts(&tree).unwrap();
    assert_eq!(bytes.len(), 1 + 10 + 2);
    assert_eq!(read_shortcuts(&bytes).unwrap(), tree);
}

#[test]
fn non_ascii_text_round_trips_as_utf8() {
    let tree = KeyValue::Object(vec![entry("name", text("Café ✓"))]);
    let bytes = write_shortcuts(&tree).unwrap();
    assert!(bytes.windows(3).any(|w| w == [0x43, 0x61, 0x66]));
    assert!(bytes.windows(2).any(|w| w == [0xC3, 0xA9]));
    assert_eq!(read_shortcuts(&bytes).unwrap(), tree);
}

#[test]
fn non_map_root_is_refused() {
    assert_eq!(write_shortcuts(&text("x")), Err(VdfError::NotAnObject));
    assert_eq!(write_shortcuts(&KeyValue::UInt32(1)), Err(VdfError::NotAnObject));
}

#[test]
fn wrong_header_is_refused() {
    let mut bytes: Vec<u8> = vec![0x00];
    bytes.extend_from_slice(b"shortcut\0\x08");
    assert_eq!(read_shortcuts(&bytes), Err(VdfError::InvalidHeader));
}

#[test]
fn empty_buffer_is_truncated() {
    assert_eq!(read_shortcuts(&[]), Err(VdfError::TruncatedInput));
}

#[test]
fn missing_end_tag_is_truncated() {
    let mut bytes: Vec<u8> = vec![0x00];
    bytes.extend_from_slice(b"shortcuts\0");
    bytes.extend_from_slice(&[0x02, b'a', 0, 1, 0, 0, 0]);
    assert_eq!(read_shortcuts(&bytes), Err(VdfError::TruncatedInput));
}

#[test]
fn tag_three_is_an_unexpected_field_tag() {
    let mut bytes: Vec<u8> = vec![0x00];
    bytes.extend_from_slice(b"shortcuts\0");
    bytes.extend_from_slice(&[0x03, b'k', 0, 1, 2, 3, 4, 0x08, 0x08]);
    assert_eq!(read_shortcuts(&bytes), Err(VdfError::UnexpectedFieldTag));
}

#[test]
fn tag_three_in_a_nested_map_is_an_unexpected_field_tag() {
    let mut bytes: Vec<u8> = vec![0x00];
    bytes.extend_from_slice(b"shortcuts\0");
    bytes.extend_from_slice(&[0x00, b'0', 0, 0x01, b'a', 0, b'b', 0, 0x03, b'c', 0, 0x08, 0x08, 0x08]);
    assert_eq!(read_shortcuts(&bytes), Err(VdfError::UnexpectedFieldTag));
}

#[test]
fn invalid_utf8_text_is_refused() {
    let mut bytes: Vec<u8> = vec![0x00];
    bytes.extend_from_slice(b"shortcuts\0");
    bytes.extend_from_slice(&[0x01, b'k', 0, 0xE9, 0, 0x08, 0x08]);
    assert_eq!(read_shortcuts(&bytes), Err(VdfError::InvalidText));
}

#[test]
fn utf8_bytes_decode_to_non_ascii_text() {
    let mut bytes: Vec<u8> = vec![0x00];
    bytes.extend_from_slice(b"shortcuts\0");
    bytes.extend_from_slice(&[0x01, b'k', 0, 0xC3, 0xA9, 0, 0x08, 0x08]);
    let tree = read_shortcuts(&bytes).unwrap();
    assert_eq!(tree, KeyValue::Object(vec![entry("k", text("é"))]));
}

#[test]
fn repeated_key_keeps_first_position_and_last_value() {
    let mut bytes: Vec<u8> = vec![0x00];
    bytes.extend_from_slice(b"shortcuts\0");
    bytes.extend_from_slice(&[0x02, b'a', 0, 1, 0, 0, 0]);
    bytes.extend_from_slice(&[0x02, b'b', 0, 2, 0, 0, 0]);
    bytes.extend_from_slice(&[0x02, b'a', 0, 3, 0, 0, 0]);
    bytes.extend_from_slice(&[0x08, 0x08]);
    let tree = read_shortcuts(&bytes).unwrap();
    assert_eq!(
        tree,
        KeyValue::Object(vec![entry("a", KeyValue::UInt32(3)), entry("b", KeyValue::UInt32(2))])
    );
}

#[test]
fn non_utf8_header_is_an_invalid_header() {
    let bytes: Vec<u8> = vec![0x00, 0xFF, 0xFE, 0x00, 0x08, 0x08];
    assert_eq!(read_shortcuts(&bytes), Err(VdfError::InvalidHeader));
}
