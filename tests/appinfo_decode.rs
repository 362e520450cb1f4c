use vdf_parser::error::VdfError;
use vdf_parser::keyvalue::KeyValue;
use vdf_parser::read_appinfo;

const OLDEST: u32 = 0x07564427;
const INLINE: u32 = 0x07564428;
const INDEXED: u32 = 0x07564429;

fn u32le(v: u32) -> [u8; 4] {
    v.to_le_bytes()
}

/// A field whose key is inline.
fn field(tag: u8, key: &str, payload: &[u8]) -> Vec<u8> {
    let mut out = vec![tag];
    out.extend_from_slice(key.as_bytes());
    out.push(0);
    out.extend_from_slice(payload);
    out
}

fn cstr(s: &str) -> Vec<u8> {
    let mut out = s.as_bytes().to_vec();
    out.push(0);
    out
}

/// The inline-key body of an app: `common { type = <kind>; name = <name> }`.
fn app_body(kind: &str, name: &str) -> Vec<u8> {
    let mut common = field(0x01, "type", &cstr(kind));
    common.extend(field(0x01, "name", &cstr(name)));
    common.push(0x08);
    let mut body = field(0x00, "common", &common);
    body.push(0x08);
    body
}

fn chunk(appid: u32, body: &[u8]) -> Vec<u8> {
    let mut out = u32le(appid).to_vec();
    out.extend_from_slice(&u32le((60 + body.len()) as u32));
    out.extend_from_slice(&[0xAA; 60]);
    out.extend_from_slice(body);
    out
}

fn legacy_file(magic: u32, bodies: &[Vec<u8>]) -> Vec<u8> {
    let mut out = u32le(magic).to_vec();
    out.extend_from_slice(&u32le(1));
    for (i, b) in bodies.iter().enumerate() {
        out.extend(chunk(10 + i as u32, b));
    }
    out.extend_from_slice(&u32le(0));
    out
}

fn text(s: &str) -> KeyValue {
    KeyValue::Text(s.to_string())
}

fn app_tree(kind: &str, name: &str) -> KeyValue {
    KeyValue::Object(vec![(
        "common".to_string(),
        KeyValue::Object(vec![("type".to_string(), text(kind)), ("name".to_string(), text(name))]),
    )])
}

#[test]
fn filter_keeps_only_games() {
    let data = legacy_file(INLINE, &[app_body("Game", "A"), app_body("DLC", "B")]);
    assert_eq!(read_appinfo(&data, None).unwrap(), vec![app_tree("Game", "A")]);
    assert_eq!(read_appinfo(&data, Some(true)).unwrap(), vec![app_tree("Game", "A")]);
}

#[test]
fn no_filter_keeps_every_app() {
    let data = legacy_file(INLINE, &[app_body("Game", "A"), app_body("DLC", "B")]);
    assert_eq!(read_appinfo(&data, Some(false)).unwrap(), vec![app_tree("Game", "A"), app_tree("DLC", "B")]);
}

#[test]
fn app_without_common_is_dropped_by_the_filter() {
    let mut body = field(0x02, "x", &u32le(5));
    body.push(0x08);
    let data = legacy_file(INLINE, &[body]);
    assert_eq!(read_appinfo(&data, None).unwrap(), Vec::<KeyValue>::new());
    assert_eq!(
        read_appinfo(&data, Some(false)).unwrap(),
        vec![KeyValue::Object(vec![("x".to_string(), KeyValue::UInt32(5))])]
    );
}

#[test]
fn game_type_is_matched_in_any_case() {
    let data = legacy_file(INLINE, &[app_body("GAME", "A"), app_body("game", "B"), app_body("games", "C")]);
    assert_eq!(read_appinfo(&data, None).unwrap(), vec![app_tree("GAME", "A"), app_tree("game", "B")]);
}

#[test]
fn appinfo_level_is_unwrapped() {
    let inner = app_body("Game", "A");
    let mut body = field(0x00, "appinfo", &inner);
    body.push(0x08);
    let data = legacy_file(INLINE, &[body]);
    assert_eq!(read_appinfo(&data, None).unwrap(), vec![app_tree("Game", "A")]);
}

#[test]
fn oldest_version_reads_inline_keys() {
    let data = legacy_file(OLDEST, &[app_body("Game", "A")]);
    assert_eq!(read_appinfo(&data, None).unwrap(), vec![app_tree("Game", "A")]);
}

#[test]
fn empty_chunk_list() {
    let data = legacy_file(INLINE, &[]);
    assert_eq!(read_appinfo(&data, None).unwrap(), Vec::<KeyValue>::new());
}

#[test]
fn unknown_magic_is_refused() {
    let data = legacy_file(0x07564426, &[app_body("Game", "A")]);
    assert_eq!(read_appinfo(&data, None), Err(VdfError::UnsupportedMagic));
}

#[test]
fn short_buffer_is_truncated() {
    assert_eq!(read_appinfo(&[0x28, 0x44, 0x56], None), Err(VdfError::TruncatedInput));
    let mut data = legacy_file(INLINE, &[app_body("Game", "A")]);
    data.truncate(data.len() - 4);
    assert_eq!(read_appinfo(&data, None), Err(VdfError::TruncatedInput));
}

#[test]
fn body_may_not_run_past_its_chunk() {
    let mut body = app_body("Game", "A");
    body.pop();
    let mut data = u32le(INLINE).to_vec();
    data.extend_from_slice(&u32le(1));
    data.extend(chunk(10, &body));
    data.extend_from_slice(&[0x08, 0, 0, 0, 0]);
    assert_eq!(read_appinfo(&data, None), Err(VdfError::TruncatedInput));
}

#[test]
fn tag_three_in_a_chunk_is_an_unexpected_field_tag() {
    let mut body = field(0x03, "x", &u32le(5));
    body.push(0x08);
    let data = legacy_file(INLINE, &[body]);
    assert_eq!(read_appinfo(&data, Some(false)), Err(VdfError::UnexpectedFieldTag));
}

/// An indexed file: bodies whose keys are table indices, then the table.
fn indexed_file(bodies: &[Vec<u8>], table: &[&str]) -> Vec<u8> {
    let mut chunks: Vec<u8> = Vec::new();
    for (i, b) in bodies.iter().enumerate() {
        chunks.extend(chunk(20 + i as u32, b));
    }
    chunks.extend_from_slice(&u32le(0));
    let table_offset = 16 + chunks.len();
    let mut out = u32le(INDEXED).to_vec();
    out.extend_from_slice(&u32le(1));
    out.extend_from_slice(&(table_offset as i64).to_le_bytes());
    out.extend(chunks);
    out.extend_from_slice(&u32le(table.len() as u32));
    for s in table {
        out.extend(cstr(s));
    }
    out
}

fn indexed_field(tag: u8, key: u32, payload: &[u8]) -> Vec<u8> {
    let mut out = vec![tag];
    out.extend_from_slice(&u32le(key));
    out.extend_from_slice(payload);
    out
}

#[test]
fn indexed_key_equals_inline_key() {
    let mut common = indexed_field(0x01, 1, &cstr("Game"));
    common.extend(indexed_field(0x01, 2, &cstr("A")));
    common.push(0x08);
    let mut body = indexed_field(0x00, 0, &common);
    body.push(0x08);
    let indexed = indexed_file(&[body], &["common", "type", "name"]);
    let legacy = legacy_file(INLINE, &[app_body("Game", "A")]);
    let from_indexed = read_appinfo(&indexed, None).unwrap();
    assert_eq!(from_indexed, read_appinfo(&legacy, None).unwrap());
    assert_eq!(from_indexed, vec![app_tree("Game", "A")]);
}

#[test]
fn indexed_key_out_of_table_is_refused() {
    let mut body = indexed_field(0x02, 3, &u32le(7));
    body.push(0x08);
    let data = indexed_file(&[body], &["common", "type", "name"]);
    assert_eq!(read_appinfo(&data, Some(false)), Err(VdfError::InvalidStringTableIndex));
}

#[test]
fn indexed_version_never_reads_inline_keys() {
    let mut body = field(0x02, "ab", &u32le(7));
    body.push(0x08);
    let data = indexed_file(&[body], &["common"]);
    assert_eq!(read_appinfo(&data, Some(false)), Err(VdfError::InvalidStringTableIndex));
}

#[test]
fn legacy_version_never_resolves_indices() {
    let mut body = field(0x02, "", &u32le(7));
    body.push(0x08);
    let data = legacy_file(INLINE, &[body]);
    let apps = read_appinfo(&data, Some(false)).unwrap();
    assert_eq!(apps, vec![KeyValue::Object(vec![(String::new(), KeyValue::UInt32(7))])]);
}

#[test]
fn table_offset_past_the_end_is_truncated() {
    let mut data = u32le(INDEXED).to_vec();
    data.extend_from_slice(&u32le(1));
    data.extend_from_slice(&1000i64.to_le_bytes());
    data.extend_from_slice(&u32le(0));
    assert_eq!(read_appinfo(&data, None), Err(VdfError::TruncatedInput));
}

#[test]
fn negative_table_offset_is_truncated() {
    let mut data = u32le(INDEXED).to_vec();
    data.extend_from_slice(&u32le(1));
    data.extend_from_slice(&(-8i64).to_le_bytes());
    data.extend_from_slice(&u32le(0));
    assert_eq!(read_appinfo(&data, None), Err(VdfError::TruncatedInput));
}

#[test]
fn many_chunks_keep_file_order() {
    let bodies: Vec<Vec<u8>> = (0..40).map(|i| app_body("Game", &format!("g{}", i))).collect();
    let data = legacy_file(INLINE, &bodies);
    let apps = read_appinfo(&data, None).unwrap();
    let expected: Vec<KeyValue> = (0..40).map(|i| app_tree("Game", &format!("g{}", i))).collect();
    assert_eq!(apps, expected);
}
